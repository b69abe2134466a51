//! Text primitives: what a piece of text is, in characters and in bytes.
//!
//! A `&str` or a `String` is seen as the sequence of its characters. Where a
//! rule counts bytes, it counts those of the UTF-8 encoding of that sequence.

use vstd::prelude::*;
use vstd::std_specs::iter::IteratorSpec;
use vstd::string::*;
use vstd::utf8::*;

verus! {

/// `String::push` appends one character.
pub assume_specification[ String::push ](s: &mut String, c: char)
    ensures
        final(s)@ == old(s)@.push(c),
;

/// The number of bytes that a text takes.
pub open spec fn byte_len(s: Seq<char>) -> nat {
    encode_utf8(s).len()
}

/// The text between two byte positions of a text.
pub open spec fn between(s: Seq<char>, i: int, j: int) -> Seq<char> {
    decode_utf8(encode_utf8(s).subrange(i, j))
}

/// Whether a byte position of a text lies between two characters.
pub open spec fn on_boundary(s: Seq<char>, i: int) -> bool {
    is_char_boundary(encode_utf8(s), i)
}

/// Two texts are equal as soon as their encodings are.
pub proof fn lemma_encoding_is_injective(a: Seq<char>, b: Seq<char>)
    requires
        encode_utf8(a) == encode_utf8(b),
    ensures
        a == b,
{
    encode_utf8_decode_utf8(a);
    encode_utf8_decode_utf8(b);
}

/// The bytes of a concatenation are the concatenation of the bytes.
pub proof fn lemma_encoding_of_concat(a: Seq<char>, b: Seq<char>)
    ensures
        encode_utf8(a + b) == encode_utf8(a) + encode_utf8(b),
    decreases a.len(),
{
    if a.len() == 0 {
        assert(a + b =~= b);
        assert(encode_utf8(a) + encode_utf8(b) =~= encode_utf8(b));
    } else {
        lemma_encoding_of_concat(a.drop_first(), b);
        assert((a + b).drop_first() =~= a.drop_first() + b);
        assert(encode_scalar(a[0] as u32) + (encode_utf8(a.drop_first()) + encode_utf8(b))
            =~= (encode_scalar(a[0] as u32) + encode_utf8(a.drop_first())) + encode_utf8(b));
    }
}

/// The characters of a text, one by one.
pub fn chars_of(s: &str) -> (r: Vec<char>)
    ensures
        r@ == s@,
{
    let mut v: Vec<char> = Vec::new();
    let mut it = s.chars();
    loop
        invariant
            it.obeys_prophetic_iter_laws(),
            it.decrease() is Some,
            v@ + it.remaining() == s@,
        decreases it.decrease()->0,
    {
        match it.next() {
            Some(c) => {
                proof {
                    assert(v@.push(c) + it.remaining() =~= s@);
                }
                v.push(c);
            },
            None => {
                proof {
                    assert(v@ =~= s@);
                }
                return v;
            },
        }
    }
}

/// The text made of the given characters.
pub fn string_of(v: &[char]) -> (r: String)
    ensures
        r@ == v@,
{
    let mut s = String::new();
    let mut i: usize = 0;
    while i < v.len()
        invariant
            i <= v.len(),
            s@ == v@.take(i as int),
        decreases v.len() - i,
    {
        proof {
            assert(v@.take(i as int).push(v@[i as int]) =~= v@.take(i + 1));
        }
        s.push(v[i]);
        i = i + 1;
    }
    proof {
        assert(v@.take(v@.len() as int) =~= v@);
    }
    s
}

/// The text made of one character.
pub fn char_string(c: char) -> (r: String)
    ensures
        r@ == seq![c],
{
    let mut s = String::new();
    s.push(c);
    proof {
        assert(s@ =~= seq![c]);
    }
    s
}

/// Whether two texts are the same.
pub fn same_text(a: &str, b: &str) -> (r: bool)
    ensures
        r == (a@ == b@),
{
    let x = a.as_bytes();
    let y = b.as_bytes();
    if x.len() != y.len() {
        return false;
    }
    let mut i: usize = 0;
    while i < x.len()
        invariant
            i <= x.len(),
            x.len() == y.len(),
            x@ == encode_utf8(a@),
            y@ == encode_utf8(b@),
            forall|k: int| 0 <= k < i ==> x@[k] == y@[k],
        decreases x.len() - i,
    {
        if x[i] != y[i] {
            return false;
        }
        i = i + 1;
    }
    proof {
        assert(x@ =~= y@);
        lemma_encoding_is_injective(a@, b@);
    }
    true
}

/// Whether `p` begins `s`.
pub open spec fn begins(s: Seq<char>, p: Seq<char>) -> bool {
    p.len() <= s.len() && s.take(p.len() as int) == p
}

/// Whether `p` ends `s`.
pub open spec fn ends(s: Seq<char>, p: Seq<char>) -> bool {
    p.len() <= s.len() && s.skip(s.len() - p.len()) == p
}

/// Whether the text starts with the given prefix.
pub fn starts_with(s: &str, p: &str) -> (r: bool)
    ensures
        r == begins(s@, p@),
{
    let mut a = s.chars();
    let mut b = p.chars();
    let ghost mut n: int = 0;
    loop
        invariant
            a.obeys_prophetic_iter_laws(),
            a.decrease() is Some,
            b.obeys_prophetic_iter_laws(),
            b.decrease() is Some,
            0 <= n <= p@.len(),
            n <= s@.len(),
            a.remaining() == s@.skip(n),
            b.remaining() == p@.skip(n),
            s@.take(n) == p@.take(n),
        decreases b.decrease()->0,
    {
        match b.next() {
            None => {
                proof {
                    assert(p@.skip(n).len() == p@.len() - n);
                    assert(p@.take(n) =~= p@);
                }
                return true;
            },
            Some(y) => {
                match a.next() {
                    None => {
                        return false;
                    },
                    Some(x) => {
                        proof {
                            assert(y == p@.skip(n)[0] && x == s@.skip(n)[0]);
                            if begins(s@, p@) {
                                assert(s@.take(p@.len() as int)[n] == s@[n]);
                            }
                        }
                        if x != y {
                            return false;
                        }
                        proof {
                            assert(s@.take(n + 1) =~= s@.take(n).push(s@[n]));
                            assert(p@.take(n + 1) =~= p@.take(n).push(p@[n]));
                            assert(s@.skip(n).drop_first() =~= s@.skip(n + 1));
                            assert(p@.skip(n).drop_first() =~= p@.skip(n + 1));
                            n = n + 1;
                        }
                    },
                }
            },
        }
    }
}


/// Whether the text ends with the given suffix.
pub fn ends_with(s: &str, p: &str) -> (r: bool)
    ensures
        r == ends(s@, p@),
{
    let a = chars_of(s);
    let b = chars_of(p);
    if b.len() > a.len() {
        return false;
    }
    let from: usize = a.len() - b.len();
    let mut i: usize = 0;
    while i < b.len()
        invariant
            i <= b.len(),
            from == a.len() - b.len(),
            a@ == s@,
            b@ == p@,
            forall|k: int| 0 <= k < i ==> a@[from + k] == b@[k],
        decreases b.len() - i,
    {
        if a[from + i] != b[i] {
            proof {
                assert(s@.skip(s@.len() - p@.len())[i as int] == a@[from + i]);
            }
            return false;
        }
        i = i + 1;
    }
    proof {
        assert(s@.skip(s@.len() - p@.len()) =~= p@);
    }
    true
}

/// Whether a character is one of the letters `a` to `z`.
pub open spec fn is_lower_letter(c: char) -> bool {
    'a' <= c <= 'z'
}

/// Whether a character is one of the letters `A` to `Z`.
pub open spec fn is_upper_letter(c: char) -> bool {
    'A' <= c <= 'Z'
}

/// Whether a character is one of the digits `0` to `9`.
pub open spec fn is_digit_char(c: char) -> bool {
    '0' <= c <= '9'
}

/// Tests for a letter from `a` to `z`.
pub fn lower_letter(c: char) -> (r: bool)
    ensures
        r == is_lower_letter(c),
{
    'a' <= c && c <= 'z'
}

/// Tests for a letter from `A` to `Z`.
pub fn upper_letter(c: char) -> (r: bool)
    ensures
        r == is_upper_letter(c),
{
    'A' <= c && c <= 'Z'
}

/// Tests for a digit.
pub fn digit_char(c: char) -> (r: bool)
    ensures
        r == is_digit_char(c),
{
    '0' <= c && c <= '9'
}

/// A character with `A` to `Z` mapped to `a` to `z`.
pub open spec fn lower_char(c: char) -> char {
    if is_upper_letter(c) {
        (c as u8 + 32) as char
    } else {
        c
    }
}

/// A character with `a` to `z` mapped to `A` to `Z`.
pub open spec fn upper_char(c: char) -> char {
    if is_lower_letter(c) {
        (c as u8 - 32) as char
    } else {
        c
    }
}

/// Maps `A` to `Z` to lower case.
pub fn lower_of(c: char) -> (r: char)
    ensures
        r == lower_char(c),
{
    if upper_letter(c) {
        ((c as u8) + 32) as char
    } else {
        c
    }
}

/// Maps `a` to `z` to upper case.
pub fn upper_of(c: char) -> (r: char)
    ensures
        r == upper_char(c),
{
    if lower_letter(c) {
        ((c as u8) - 32) as char
    } else {
        c
    }
}

/// What `str::to_lowercase` makes of a text.
pub uninterp spec fn unicode_lowercase(s: Seq<char>) -> Seq<char>;

/// Whether each character of a text is ASCII, or has no lower-case form but itself.
pub open spec fn small_beyond_ascii(s: Seq<char>) -> bool {
    forall|i: int| 0 <= i < s.len() ==> '\0' <= #[trigger] s[i] <= '\u{7f}' || unicode_lower(s[i]) == seq![s[i]]
}

/// `str::to_lowercase` by the Unicode tables, which are not written out here: its
/// result is named. A character without a lower-case form is not changed: in a text whose other
/// characters are ASCII, only `A` to `Z` are.
#[verifier::external_body]
fn std_lowercase(s: &str) -> (r: String)
    ensures
        r@ == unicode_lowercase(s@),
        small_beyond_ascii(s@) ==> r@ == s@.map_values(|c: char| lower_char(c)),
{
    s.to_lowercase()
}

/// The lower-case form of a text. Where only ASCII letters have one, each is mapped by itself;
/// the rest is for Unicode to say.
pub open spec fn lowercase(s: Seq<char>) -> Seq<char> {
    if small_beyond_ascii(s) {
        s.map_values(|c: char| lower_char(c))
    } else {
        unicode_lowercase(s)
    }
}

/// The text in lower case.
pub fn to_lower(s: &str) -> (r: String)
    ensures
        r@ == lowercase(s@),
{
    if !s.is_ascii() {
        return std_lowercase(s);
    }
    let v = chars_of(s);
    let mut out = String::new();
    let mut i: usize = 0;
    while i < v.len()
        invariant
            i <= v.len(),
            v@ == s@,
            out@ == s@.map_values(|c: char| lower_char(c)).take(i as int),
        decreases v.len() - i,
    {
        let c = lower_of(v[i]);
        proof {
            let m = s@.map_values(|c: char| lower_char(c));
            assert(m.take(i as int).push(c) =~= m.take(i + 1));
        }
        out.push(c);
        i = i + 1;
    }
    proof {
        let m = s@.map_values(|c: char| lower_char(c));
        assert(m.take(m.len() as int) =~= m);
    }
    out
}

/// `std::str::from_utf8` accepts exactly the well-formed encodings, and hands back
/// the text whose encoding was given.
#[verifier::external_body]
pub(crate) fn utf8_str<'a>(b: &'a [u8]) -> (r: Option<&'a str>)
    ensures
        r is Some <==> valid_utf8(b@),
        r matches Some(s) ==> s.spec_bytes() == b@,
{
    std::str::from_utf8(b).ok()
}

/// The part of a text between two byte positions.
pub fn sub_str<'a>(s: &'a str, i: usize, j: usize) -> (r: &'a str)
    requires
        i <= j <= byte_len(s@),
        on_boundary(s@, i as int),
        on_boundary(s@, j as int),
    ensures
        r@ == between(s@, i as int, j as int),
        r.spec_bytes() == s.spec_bytes().subrange(i as int, j as int),
{
    let b = s.as_bytes();
    let (head, _tail) = s.split_at(j);
    proof {
        encode_utf8_valid_utf8(s@);
        lemma_boundary_in_head(s.spec_bytes(), i as int, j as int);
    }
    let (_front, mid) = head.split_at(i);
    proof {
        assert(s.spec_bytes().subrange(0, j as int).subrange(i as int, j as int)
            =~= s.spec_bytes().subrange(i as int, j as int));
        encode_utf8_decode_utf8(mid@);
    }
    mid
}

/// The bytes between two boundaries are a text.
pub proof fn lemma_part_is_text(b: Seq<u8>, i: int, j: int)
    requires
        valid_utf8(b),
        0 <= i <= j <= b.len(),
        is_char_boundary(b, i),
        is_char_boundary(b, j),
    ensures
        valid_utf8(b.subrange(i, j)),
{
    lemma_boundary_in_head(b, i, j);
    let head = b.subrange(0, j);
    valid_utf8_split(head, i);
    assert(head.subrange(i, head.len() as int) =~= b.subrange(i, j));
}

/// A boundary of a text is one of the part before a later boundary.
proof fn lemma_boundary_in_head(b: Seq<u8>, i: int, j: int)
    requires
        valid_utf8(b),
        0 <= i <= j <= b.len(),
        is_char_boundary(b, i),
        is_char_boundary(b, j),
    ensures
        valid_utf8(b.subrange(0, j)),
        is_char_boundary(b.subrange(0, j), i),
    decreases b.len(),
{
    valid_utf8_split(b, j);
    if i != 0 {
        let n = length_of_first_scalar(b);
        let rest = pop_first_scalar(b);
        let head = b.subrange(0, j);
        assert(j - n >= 0) by {
            if j < n {
                reveal_with_fuel(is_char_boundary, 2);
            }
        }
        assert(i - n >= 0) by {
            if i < n {
                reveal_with_fuel(is_char_boundary, 2);
            }
        }
        lemma_boundary_in_head(rest, i - n, j - n);
        assert(valid_first_scalar(head));
        assert(head[0] == b[0]);
        assert(pop_first_scalar(head) =~= rest.subrange(0, j - n));
    }
}


/// The fields of a text, cut at every separator.
pub open spec fn fields(s: Seq<char>, seps: Seq<char>) -> Seq<Seq<char>>
    decreases s.len(),
{
    if s.len() == 0 {
        seq![Seq::empty()]
    } else {
        let f = fields(s.drop_last(), seps);
        if seps.contains(s.last()) {
            f.push(Seq::empty())
        } else {
            f.update(f.len() - 1, f.last().push(s.last()))
        }
    }
}

pub proof fn lemma_fields_nonempty(s: Seq<char>, seps: Seq<char>)
    ensures
        fields(s, seps).len() >= 1,
    decreases s.len(),
{
    if s.len() > 0 {
        lemma_fields_nonempty(s.drop_last(), seps);
    }
}

/// At a separator a text is cut in two: the fields of both parts are its fields.
pub proof fn lemma_fields_part(a: Seq<char>, c: char, b: Seq<char>, seps: Seq<char>)
    requires
        seps.contains(c),
    ensures
        fields(a + seq![c] + b, seps) == fields(a, seps) + fields(b, seps),
    decreases b.len(),
{
    let s = a + seq![c] + b;
    let x = fields(a, seps);
    if b.len() == 0 {
        assert(s =~= a.push(c));
        assert(s.drop_last() =~= a);
        assert(x.push(Seq::<char>::empty()) =~= x + fields(b, seps));
    } else {
        lemma_fields_part(a, c, b.drop_last(), seps);
        assert(s.drop_last() =~= a + seq![c] + b.drop_last());
        let y = fields(b.drop_last(), seps);
        lemma_fields_nonempty(b.drop_last(), seps);
        let f = x + y;
        assert(f.last() == y.last());
        if seps.contains(b.last()) {
            assert(f.push(Seq::<char>::empty()) =~= x + y.push(Seq::<char>::empty()));
        } else {
            assert(f.update(f.len() - 1, f.last().push(b.last())) =~= x + y.update(
                y.len() - 1,
                y.last().push(b.last()),
            ));
        }
    }
}

/// A text whose only letters with a lower-case form are ASCII stays as it is in lower case.
pub proof fn lemma_lowercase_twice(s: Seq<char>)
    requires
        small_beyond_ascii(s),
    ensures
        small_beyond_ascii(lowercase(s)),
        lowercase(lowercase(s)) == lowercase(s),
        lowercase(s).len() == s.len(),
{
    let t = lowercase(s);
    assert forall|i: int| 0 <= i < t.len() implies '\0' <= #[trigger] t[i] <= '\u{7f}'
        || unicode_lower(t[i]) == seq![t[i]] by {
        assert('\0' <= s[i] <= '\u{7f}' || unicode_lower(s[i]) == seq![s[i]]);
    }
    assert(lowercase(t) =~= t);
}

/// A text whose only letters with a lower-case form are ASCII begins with what it begins with in
/// lower case.
pub proof fn lemma_lowercase_take(s: Seq<char>, n: int)
    requires
        small_beyond_ascii(s),
        0 <= n <= s.len(),
    ensures
        small_beyond_ascii(s.take(n)),
        lowercase(s.take(n)) == lowercase(s).take(n),
{
    assert forall|i: int| 0 <= i < n implies '\0' <= #[trigger] s.take(n)[i] <= '\u{7f}'
        || unicode_lower(s.take(n)[i]) == seq![s.take(n)[i]] by {
        assert(s.take(n)[i] == s[i]);
    }
    assert(lowercase(s.take(n)) =~= lowercase(s).take(n));
}

/// The texts of a list.
pub open spec fn texts(v: Seq<String>) -> Seq<Seq<char>> {
    v.map_values(|s: String| s@)
}

/// Whether a character is among some others.
pub fn char_in(c: char, set: &[char]) -> (r: bool)
    ensures
        r == set@.contains(c),
{
    let mut i: usize = 0;
    while i < set.len()
        invariant
            i <= set.len(),
            forall|j: int| 0 <= j < i ==> set@[j] != c,
        decreases set.len() - i,
    {
        if set[i] == c {
            return true;
        }
        i = i + 1;
    }
    false
}

/// Cuts a text at every separator.
pub fn split_at_any(s: &str, seps: &[char]) -> (r: Vec<String>)
    ensures
        texts(r@) == fields(s@, seps@),
        r@.len() >= 1,
{
    let v = chars_of(s);
    let mut done: Vec<String> = Vec::new();
    let mut cur = String::new();
    let mut i: usize = 0;
    proof {
        assert(s@.take(0) =~= Seq::<char>::empty());
        assert(texts(done@).push(cur@) =~= seq![Seq::<char>::empty()]);
    }
    while i < v.len()
        invariant
            i <= v.len(),
            v@ == s@,
            texts(done@).push(cur@) == fields(s@.take(i as int), seps@),
        decreases v.len() - i,
    {
        let c = v[i];
        let ghost before = texts(done@).push(cur@);
        proof {
            assert(s@.take(i + 1).drop_last() =~= s@.take(i as int));
            assert(s@.take(i + 1).last() == c);
        }
        if char_in(c, seps) {
            done.push(cur);
            cur = String::new();
            proof {
                assert(texts(done@) =~= before);
                assert(texts(done@).push(cur@) =~= before.push(Seq::empty()));
            }
        } else {
            cur.push(c);
            proof {
                assert(texts(done@).push(cur@) =~= before.update(
                    before.len() - 1,
                    before.last().push(c),
                ));
            }
        }
        i = i + 1;
    }
    proof {
        assert(s@.take(s@.len() as int) =~= s@);
    }
    let ghost all = texts(done@).push(cur@);
    done.push(cur);
    proof {
        assert(texts(done@) =~= all);
    }
    done
}


/// Whether `char::is_whitespace` holds of a character beyond ASCII.
pub uninterp spec fn unicode_space(c: char) -> bool;

/// `char::is_whitespace` by the Unicode tables, which are not written out here: its result
/// is named.
#[verifier::external_body]
fn std_is_space(c: char) -> (r: bool)
    ensures
        r == unicode_space(c),
{
    c.is_whitespace()
}

/// Whether a character is white space.
pub open spec fn is_space(c: char) -> bool {
    if c as u32 <= 127 {
        c == ' ' || 9 <= c as u32 <= 13
    } else {
        unicode_space(c)
    }
}

/// Tests for white space.
pub fn space(c: char) -> (r: bool)
    ensures
        r == is_space(c),
{
    let n = c as u32;
    if n <= 127 {
        n == 32 || (9 <= n && n <= 13)
    } else {
        std_is_space(c)
    }
}

/// Whether `char::is_alphanumeric` holds of a character.
pub uninterp spec fn unicode_alphanumeric(c: char) -> bool;

/// `char::is_alphanumeric` says of a character, and of nothing else, whether it is a letter or
/// a number.
#[verifier::external_body]
fn std_is_alphanumeric(c: char) -> (r: bool)
    ensures
        r == unicode_alphanumeric(c),
{
    c.is_alphanumeric()
}

/// Whether a character is a letter or a number. Beyond ASCII that is for Unicode to say.
pub open spec fn is_alphanumeric(c: char) -> bool {
    if c as u32 <= 127 {
        is_lower_letter(c) || is_upper_letter(c) || is_digit_char(c)
    } else {
        unicode_alphanumeric(c)
    }
}

/// Whether a character is a letter or a number.
pub fn alphanumeric(c: char) -> (r: bool)
    ensures
        r == is_alphanumeric(c),
{
    if c as u32 <= 127 {
        lower_letter(c) || upper_letter(c) || digit_char(c)
    } else {
        std_is_alphanumeric(c)
    }
}

/// What `char::to_uppercase` makes of a character.
pub uninterp spec fn unicode_upper(c: char) -> Seq<char>;

/// `char::to_uppercase` gives characters that depend on the character alone.
#[verifier::external_body]
fn std_upper(c: char) -> (r: String)
    ensures
        r@ == unicode_upper(c),
{
    c.to_uppercase().to_string()
}

/// A character in capitals. Beyond ASCII that is for Unicode to say.
pub open spec fn capital(c: char) -> Seq<char> {
    if c as u32 <= 127 {
        seq![upper_char(c)]
    } else {
        unicode_upper(c)
    }
}

/// A character in capitals.
pub fn to_capital(c: char) -> (r: String)
    ensures
        r@ == capital(c),
{
    if c as u32 <= 127 {
        let s = char_string(upper_of(c));
        proof {
            assert(s@ =~= seq![upper_char(c)]);
        }
        s
    } else {
        std_upper(c)
    }
}

/// What `char::to_lowercase` makes of a character.
pub uninterp spec fn unicode_lower(c: char) -> Seq<char>;

/// `char::to_lowercase` gives characters that depend on the character alone.
#[verifier::external_body]
fn std_lower(c: char) -> (r: String)
    ensures
        r@ == unicode_lower(c),
{
    c.to_lowercase().to_string()
}

/// A character in small letters. Beyond ASCII that is for Unicode to say.
pub open spec fn small(c: char) -> Seq<char> {
    if c as u32 <= 127 {
        seq![lower_char(c)]
    } else {
        unicode_lower(c)
    }
}

/// A character in small letters.
pub fn to_small(c: char) -> (r: String)
    ensures
        r@ == small(c),
{
    if c as u32 <= 127 {
        let s = char_string(lower_of(c));
        proof {
            assert(s@ =~= seq![lower_char(c)]);
        }
        s
    } else {
        std_lower(c)
    }
}

/// A text without the white space at its end.
pub open spec fn trimmed_end(s: Seq<char>) -> Seq<char>
    decreases s.len(),
{
    if s.len() > 0 && is_space(s.last()) {
        trimmed_end(s.drop_last())
    } else {
        s
    }
}

/// A text without the white space at its beginning.
pub open spec fn trimmed_start(s: Seq<char>) -> Seq<char>
    decreases s.len(),
{
    if s.len() > 0 && is_space(s[0]) {
        trimmed_start(s.drop_first())
    } else {
        s
    }
}

/// A text without the white space around it.
pub open spec fn trimmed(s: Seq<char>) -> Seq<char> {
    trimmed_end(trimmed_start(s))
}

/// Cuts off the white space at the end.
pub fn trim_end(s: &str) -> (r: String)
    ensures
        r@ == trimmed_end(s@),
{
    let v = chars_of(s);
    let mut n: usize = v.len();
    proof {
        assert(s@.take(n as int) =~= s@);
    }
    while n > 0 && space(v[n - 1])
        invariant
            n <= v.len(),
            v@ == s@,
            trimmed_end(s@) == trimmed_end(s@.take(n as int)),
        decreases n,
    {
        proof {
            assert(s@.take(n as int).last() == v@[n - 1]);
            assert(s@.take(n as int).drop_last() =~= s@.take(n - 1));
        }
        n = n - 1;
    }
    proof {
        if n > 0 {
            assert(s@.take(n as int).last() == v@[n - 1]);
        }
    }
    let r = string_of(vstd::slice::slice_subrange(v.as_slice(), 0, n));
    proof {
        assert(r@ =~= s@.take(n as int));
    }
    r
}

/// Cuts off the white space around a text.
pub fn trim(s: &str) -> (r: String)
    ensures
        r@ == trimmed(s@),
{
    let v = chars_of(s);
    let mut n: usize = 0;
    proof {
        assert(s@.skip(0) =~= s@);
    }
    while n < v.len() && space(v[n])
        invariant
            n <= v.len(),
            v@ == s@,
            trimmed_start(s@) == trimmed_start(s@.skip(n as int)),
        decreases v.len() - n,
    {
        proof {
            assert(s@.skip(n as int)[0] == v@[n as int]);
            assert(s@.skip(n as int).drop_first() =~= s@.skip(n + 1));
        }
        n = n + 1;
    }
    proof {
        if n < v@.len() {
            assert(s@.skip(n as int)[0] == v@[n as int]);
        }
    }
    let t = string_of(vstd::slice::slice_subrange(v.as_slice(), n, v.len()));
    proof {
        assert(t@ =~= s@.skip(n as int));
    }
    trim_end(t.as_str())
}

/// The number that a row of digits writes.
pub open spec fn digits_value(s: Seq<char>) -> int
    decreases s.len(),
{
    if s.len() == 0 {
        0
    } else {
        10 * digits_value(s.drop_last()) + (s.last() as int - '0' as int)
    }
}

/// Whether a text is a row of digits.
pub open spec fn all_digits(s: Seq<char>) -> bool {
    forall|i: int| 0 <= i < s.len() ==> is_digit_char(#[trigger] s[i])
}

/// A number as a text writes it: an optional plus sign, then digits, up to a largest value.
pub open spec fn number(s: Seq<char>, max: int) -> Option<int> {
    let t = if s.len() > 0 && s[0] == '+' {
        s.skip(1)
    } else {
        s
    };
    if t.len() > 0 && all_digits(t) && digits_value(t) <= max {
        Some(digits_value(t))
    } else {
        None
    }
}

proof fn lemma_digits_grow(s: Seq<char>, n: int)
    requires
        all_digits(s),
        0 <= n <= s.len(),
    ensures
        0 <= digits_value(s.take(n)) <= digits_value(s),
    decreases s.len() - n,
{
    if n == s.len() {
        assert(s.take(n) =~= s);
        lemma_digits_nonneg(s);
    } else {
        lemma_digits_grow(s, n + 1);
        assert(s.take(n + 1).drop_last() =~= s.take(n));
        assert(s.take(n + 1).last() == s[n]);
        assert(is_digit_char(s[n]));
        assert forall|i: int| 0 <= i < s.take(n).len() implies is_digit_char(#[trigger] s.take(n)[i]) by {
            assert(s.take(n)[i] == s[i]);
        }
        lemma_digits_nonneg(s.take(n));
    }
}

proof fn lemma_digits_nonneg(s: Seq<char>)
    requires
        all_digits(s),
    ensures
        digits_value(s) >= 0,
    decreases s.len(),
{
    if s.len() > 0 {
        let r = s.drop_last();
        assert forall|i: int| 0 <= i < r.len() implies is_digit_char(#[trigger] r[i]) by {
            assert(r[i] == s[i]);
        }
        lemma_digits_nonneg(r);
        assert(is_digit_char(s[s.len() - 1]));
    }
}

/// Reads a number of 64 bits.
pub fn parse_u64(s: &str) -> (r: Option<u64>)
    ensures
        r is Some <==> number(s@, u64::MAX as int) is Some,
        r matches Some(n) ==> number(s@, u64::MAX as int) == Some(n as int),
{
    let v = chars_of(s);
    let start: usize = if v.len() > 0 && v[0] == '+' {
        1
    } else {
        0
    };
    let ghost t = s@.skip(start as int);
    proof {
        if start == 0 {
            assert(t =~= s@);
        }
    }
    if start >= v.len() {
        return None;
    }
    let mut n: u64 = 0;
    let mut i: usize = start;
    proof {
        assert(t.take(0) =~= Seq::<char>::empty());
    }
    while i < v.len()
        invariant
            start <= i <= v.len(),
            v@ == s@,
            t == s@.skip(start as int),
            t == (if s@.len() > 0 && s@[0] == '+' {
                s@.skip(1)
            } else {
                s@
            }),
            forall|j: int| 0 <= j < i - start ==> is_digit_char(#[trigger] t[j]),
            n == digits_value(t.take(i - start)),
        decreases v.len() - i,
    {
        let c = v[i];
        proof {
            assert(t[i - start] == c);
            assert(t.take(i + 1 - start).drop_last() =~= t.take(i - start));
            assert(t.take(i + 1 - start).last() == c);
        }
        if !digit_char(c) {
            return None;
        }
        let d: u64 = (c as u32 - '0' as u32) as u64;
        if n > (u64::MAX - d) / 10 {
            proof {
                assert(digits_value(t.take(i + 1 - start)) > u64::MAX);
                if all_digits(t) {
                    lemma_digits_grow(t, i + 1 - start);
                }
            }
            return None;
        }
        n = n * 10 + d;
        i = i + 1;
    }
    proof {
        assert(t.take(t.len() as int) =~= t);
    }
    Some(n)
}

/// The characters other than one.
pub open spec fn other_than(c: char) -> spec_fn(char) -> bool {
    |x: char| x != c
}

/// A text without a character.
pub open spec fn without_char(s: Seq<char>, c: char) -> Seq<char> {
    s.filter(other_than(c))
}

/// Leaves a character out of a text.
pub fn remove_char(s: &str, c: char) -> (r: String)
    ensures
        r@ == without_char(s@, c),
{
    let v = chars_of(s);
    let mut out = String::new();
    let mut i: usize = 0;
    let ghost keep = other_than(c);
    proof {
        reveal(Seq::filter);
        assert(s@.take(0) =~= Seq::<char>::empty());
    }
    while i < v.len()
        invariant
            i <= v.len(),
            v@ == s@,
            keep == other_than(c),
            out@ == s@.take(i as int).filter(keep),
        decreases v.len() - i,
    {
        proof {
            reveal(Seq::filter);
            assert(s@.take(i + 1).drop_last() =~= s@.take(i as int));
            assert(s@.take(i + 1).last() == v@[i as int]);
        }
        if v[i] != c {
            out.push(v[i]);
        }
        i = i + 1;
    }
    proof {
        assert(s@.take(s@.len() as int) =~= s@);
    }
    out
}

/// What stands before the first occurrence of a character.
pub open spec fn up_to(s: Seq<char>, c: char) -> Seq<char>
    decreases s.len(),
{
    if s.len() == 0 || s[0] == c {
        Seq::empty()
    } else {
        seq![s[0]] + up_to(s.drop_first(), c)
    }
}

/// A text cut at the first occurrence of a character.
pub open spec fn cut_once(s: Seq<char>, c: char) -> Option<(Seq<char>, Seq<char>)> {
    if s.contains(c) {
        Some((up_to(s, c), s.skip(up_to(s, c).len() as int + 1)))
    } else {
        None
    }
}

/// Cuts a text at the first occurrence of a character.
pub fn split_once(s: &str, c: char) -> (r: Option<(String, String)>)
    ensures
        r is Some <==> cut_once(s@, c) is Some,
        r matches Some((a, b)) ==> cut_once(s@, c) == Some((a@, b@)),
{
    let v = chars_of(s);
    let mut out = String::new();
    let mut i: usize = 0;
    proof {
        assert(v@.skip(0) =~= v@);
        assert(out@ + up_to(v@, c) =~= up_to(v@, c));
    }
    while i < v.len()
        invariant
            i <= v.len(),
            v@ == s@,
            out@.len() == i,
            out@ + up_to(v@.skip(i as int), c) == up_to(v@, c),
            forall|j: int| 0 <= j < i ==> v@[j] != c,
        decreases v.len() - i,
    {
        if v[i] == c {
            proof {
                assert(v@.contains(v@[i as int]));
                assert(out@ + Seq::<char>::empty() =~= out@);
                assert(v@.skip(i as int)[0] == c);
            }
            let rest = string_of(vstd::slice::slice_subrange(v.as_slice(), i + 1, v.len()));
            proof {
                assert(rest@ =~= s@.skip(i + 1));
            }
            return Some((out, rest));
        }
        proof {
            let r = v@.skip(i as int);
            assert(r[0] == v@[i as int]);
            assert(r.drop_first() =~= v@.skip(i + 1));
            assert(out@ + (seq![r[0]] + up_to(r.drop_first(), c)) =~= out@.push(v@[i as int]) + up_to(
                v@.skip(i + 1),
                c,
            ));
        }
        out.push(v[i]);
        i = i + 1;
    }
    None
}

/// A text without separators is one field, and a text with one is cut there: its fields are those
/// of what stands before it, and those of what stands behind it.
pub proof fn law_fields_are_cut_at_separators(a: Seq<char>, c: char, b: Seq<char>, seps: Seq<char>)
    requires
        seps.contains(c),
    ensures
        fields(a + seq![c] + b, seps) == fields(a, seps) + fields(b, seps),
        (forall|i: int| 0 <= i < a.len() ==> !seps.contains(#[trigger] a[i])) ==> fields(a, seps)
            == seq![a],
{
    lemma_fields_part(a, c, b, seps);
    if forall|i: int| 0 <= i < a.len() ==> !seps.contains(#[trigger] a[i]) {
        lemma_one_field(a, seps);
    }
}

proof fn lemma_one_field(a: Seq<char>, seps: Seq<char>)
    requires
        forall|i: int| 0 <= i < a.len() ==> !seps.contains(#[trigger] a[i]),
    ensures
        fields(a, seps) == seq![a],
    decreases a.len(),
{
    if a.len() > 0 {
        let d = a.drop_last();
        assert forall|i: int| 0 <= i < d.len() implies !seps.contains(#[trigger] d[i]) by {
            assert(d[i] == a[i]);
        }
        lemma_one_field(d, seps);
        assert(!seps.contains(a[a.len() - 1]));
        assert(d.push(a.last()) =~= a);
        assert(seq![d].update(0, a) =~= seq![a]);
    } else {
        assert(a =~= Seq::empty());
    }
}

/// Whether a code stands in a text at a place where a word begins: at the start, or behind a
/// separator.
pub open spec fn word_at(s: Seq<char>, code: Seq<char>, seps: Seq<char>, p: int) -> bool {
    &&& 0 <= p
    &&& p + code.len() <= s.len()
    &&& s.subrange(p, p + code.len()) == code
    &&& p == 0 || seps.contains(s[p - 1])
}

/// Whether a word of a text begins with a code.
pub open spec fn word_begins(s: Seq<char>, code: Seq<char>, seps: Seq<char>) -> bool {
    exists|p: int| word_at(s, code, seps, p)
}

proof fn lemma_field_place(s: Seq<char>, seps: Seq<char>, i: int) -> (p: int)
    requires
        0 <= i < fields(s, seps).len(),
    ensures
        word_at(s, fields(s, seps)[i], seps, p),
        i == fields(s, seps).len() - 1 ==> p + fields(s, seps)[i].len() == s.len(),
    decreases s.len(),
{
    if s.len() == 0 {
        assert(s.subrange(0, 0) =~= Seq::<char>::empty());
        0
    } else {
        let d = s.drop_last();
        let f = fields(d, seps);
        let g = fields(s, seps);
        lemma_fields_nonempty(d, seps);
        if seps.contains(s.last()) && i == f.len() {
            assert(s.subrange(s.len() as int, s.len() as int) =~= Seq::<char>::empty());
            s.len() as int
        } else {
            let p = lemma_field_place(d, seps, i);
            if i < f.len() - 1 || seps.contains(s.last()) {
                assert(g[i] == f[i]);
                assert(s.subrange(p, p + f[i].len()) =~= d.subrange(p, p + f[i].len()));
            } else {
                assert(g[i] == f[i].push(s.last()));
                assert(s.subrange(p, p + g[i].len()) =~= d.subrange(p, p + f[i].len()).push(
                    s.last(),
                ));
            }
            p
        }
    }
}

proof fn lemma_first_field(s: Seq<char>, code: Seq<char>, seps: Seq<char>)
    requires
        begins(s, code),
        forall|i: int| 0 <= i < code.len() ==> !seps.contains(#[trigger] code[i]),
    ensures
        begins(fields(s, seps)[0], code),
    decreases s.len(),
{
    lemma_fields_nonempty(s, seps);
    if s.len() == code.len() {
        assert(s =~= code);
        lemma_one_field(s, seps);
    } else {
        let d = s.drop_last();
        assert(d.take(code.len() as int) =~= s.take(code.len() as int));
        lemma_first_field(d, code, seps);
        lemma_fields_nonempty(d, seps);
        let f = fields(d, seps)[0];
        assert(f.push(s.last()).take(code.len() as int) =~= f.take(code.len() as int));
    }
}

/// A field of a text begins with a code that has no separators exactly where the code stands at
/// the start of the text or behind a separator.
pub proof fn law_fields_begin_where_words_begin(s: Seq<char>, code: Seq<char>, seps: Seq<char>)
    requires
        forall|i: int| 0 <= i < code.len() ==> !seps.contains(#[trigger] code[i]),
    ensures
        (exists|i: int| 0 <= i < fields(s, seps).len() && begins(#[trigger] fields(s, seps)[i], code))
            <==> word_begins(s, code, seps),
{
    let f = fields(s, seps);
    if exists|i: int| 0 <= i < f.len() && begins(#[trigger] f[i], code) {
        let i = choose|i: int| 0 <= i < f.len() && begins(#[trigger] f[i], code);
        lemma_field_begins(s, code, seps, i);
    }
    if word_begins(s, code, seps) {
        let p = choose|p: int| word_at(s, code, seps, p);
        if p == 0 {
            assert(s.take(code.len() as int) =~= s.subrange(0, code.len() as int));
            lemma_first_field(s, code, seps);
            lemma_fields_nonempty(s, seps);
            assert(begins(f[0], code));
        } else {
            let a = s.take(p - 1);
            let c = s[p - 1];
            let b = s.skip(p);
            assert(a + seq![c] + b =~= s);
            lemma_fields_part(a, c, b, seps);
            assert(b.take(code.len() as int) =~= s.subrange(p, p + code.len()));
            lemma_first_field(b, code, seps);
            lemma_fields_nonempty(b, seps);
            let x = fields(a, seps);
            assert(f[x.len() as int] == fields(b, seps)[0]);
        }
    }
}

/// A field that begins with a code does so where a word begins.
pub proof fn lemma_field_begins(s: Seq<char>, code: Seq<char>, seps: Seq<char>, i: int)
    requires
        0 <= i < fields(s, seps).len(),
        begins(fields(s, seps)[i], code),
    ensures
        word_begins(s, code, seps),
{
    let f = fields(s, seps)[i];
    let p = lemma_field_place(s, seps, i);
    assert(s.subrange(p, p + code.len()) =~= f.take(code.len() as int)) by {
        assert(s.subrange(p, p + f.len()).take(code.len() as int) =~= s.subrange(p, p + code.len()));
    }
    assert(word_at(s, code, seps, p));
}

/// White space is cut off at both ends of a text and nowhere else: what is left neither begins nor ends
/// with any, and what was cut off is nothing but that.
pub proof fn law_white_space_is_cut_off(s: Seq<char>)
    ensures
        ({
            let t = trimmed(s);
            &&& t.len() > 0 ==> !is_space(t[0]) && !is_space(t.last())
            &&& exists|a: Seq<char>, b: Seq<char>| #[trigger] around(a, t, b) == s && all_space(a)
                && all_space(b)
        }),
{
    let r = trimmed_start(s);
    let t = trimmed(s);
    lemma_cut_start(s);
    lemma_cut_end(r);
    let a = s.take(s.len() - r.len());
    let b = r.skip(t.len() as int);
    assert(around(a, t, b) =~= s);
    if t.len() > 0 {
        assert(t[0] == r[0]);
    }
}

/// A text with another before and one behind it.
pub open spec fn around(a: Seq<char>, t: Seq<char>, b: Seq<char>) -> Seq<char> {
    a + t + b
}

/// Whether a text is nothing but white space.
pub open spec fn all_space(s: Seq<char>) -> bool {
    forall|i: int| 0 <= i < s.len() ==> is_space(#[trigger] s[i])
}

proof fn lemma_cut_start(s: Seq<char>)
    ensures
        ({
            let r = trimmed_start(s);
            &&& r.len() <= s.len()
            &&& s.skip(s.len() - r.len()) == r
            &&& all_space(s.take(s.len() - r.len()))
            &&& r.len() > 0 ==> !is_space(r[0])
        }),
    decreases s.len(),
{
    let r = trimmed_start(s);
    if s.len() > 0 && is_space(s[0]) {
        let d = s.drop_first();
        lemma_cut_start(d);
        assert(s.skip(s.len() - r.len()) =~= d.skip(d.len() - r.len()));
        let a = s.take(s.len() - r.len());
        assert forall|i: int| 0 <= i < a.len() implies is_space(#[trigger] a[i]) by {
            if i > 0 {
                assert(a[i] == d.take(d.len() - r.len())[i - 1]);
            }
        }
    } else {
        assert(s.skip(0) =~= s);
    }
}

proof fn lemma_cut_end(s: Seq<char>)
    ensures
        ({
            let r = trimmed_end(s);
            &&& r.len() <= s.len()
            &&& s.take(r.len() as int) == r
            &&& all_space(s.skip(r.len() as int))
            &&& r.len() > 0 ==> !is_space(r.last())
        }),
    decreases s.len(),
{
    let r = trimmed_end(s);
    if s.len() > 0 && is_space(s.last()) {
        let d = s.drop_last();
        lemma_cut_end(d);
        assert(s.take(r.len() as int) =~= d.take(r.len() as int));
        let b = s.skip(r.len() as int);
        assert forall|i: int| 0 <= i < b.len() implies is_space(#[trigger] b[i]) by {
            if i < b.len() - 1 {
                assert(b[i] == d.skip(r.len() as int)[i]);
            }
        }
    } else {
        assert(s.take(s.len() as int) =~= s);
    }
}

/// A text is cut where a character occurs first: before the cut it does not occur, and both parts with it
/// between them are the text.
pub proof fn law_texts_are_cut_once(s: Seq<char>, c: char)
    ensures
        s.contains(c) <==> cut_once(s, c) is Some,
        cut_once(s, c) matches Some((a, b)) ==> !a.contains(c) && a + seq![c] + b == s,
{
    lemma_up_to_first(s, c);
    if s.contains(c) {
        let a = up_to(s, c);
        assert(a + seq![c] + s.skip(a.len() as int + 1) =~= s);
    }
}

proof fn lemma_up_to_first(s: Seq<char>, c: char)
    ensures
        !up_to(s, c).contains(c),
        up_to(s, c).len() <= s.len(),
        s.take(up_to(s, c).len() as int) == up_to(s, c),
        s.contains(c) ==> up_to(s, c).len() < s.len() && s[up_to(s, c).len() as int] == c,
    decreases s.len(),
{
    let a = up_to(s, c);
    if s.len() == 0 || s[0] == c {
        assert(s.take(0) =~= a);
    } else {
        let d = s.drop_first();
        lemma_up_to_first(d, c);
        let r = up_to(d, c);
        assert(s.take(a.len() as int) =~= seq![s[0]] + d.take(r.len() as int));
        if a.contains(c) {
            let i = choose|i: int| 0 <= i < a.len() && a[i] == c;
            assert(r[i - 1] == c);
        }
        if s.contains(c) {
            let i = choose|i: int| 0 <= i < s.len() && s[i] == c;
            assert(d[i - 1] == c);
        }
    }
}

/// A character is left out of both parts of a text, and every other character stays.
pub proof fn law_characters_are_left_out(a: Seq<char>, b: Seq<char>, c: char, x: char)
    ensures
        without_char(a + b, c) == without_char(a, c) + without_char(b, c),
        without_char(seq![c], c).len() == 0,
        x != c ==> without_char(seq![x], c) == seq![x],
{
    let f = other_than(c);
    lemma_filter_joined(a, b, f);
    reveal_with_fuel(Seq::filter, 2);
    assert(seq![c].drop_last() =~= Seq::empty());
    assert(seq![x].drop_last() =~= Seq::empty());
    if x != c {
        assert(seq![x].filter(f) =~= seq![x]);
    }
}

proof fn lemma_filter_joined(a: Seq<char>, b: Seq<char>, f: spec_fn(char) -> bool)
    ensures
        (a + b).filter(f) == a.filter(f) + b.filter(f),
    decreases b.len(),
{
    reveal(Seq::filter);
    if b.len() > 0 {
        lemma_filter_joined(a, b.drop_last(), f);
        assert((a + b).drop_last() =~= a + b.drop_last());
        assert((a + b).filter(f) =~= a.filter(f) + b.filter(f));
    } else {
        assert(a + b =~= a);
        assert(a.filter(f) + b.filter(f) =~= a.filter(f));
    }
}


} // verus!
