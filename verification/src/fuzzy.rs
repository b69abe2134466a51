//! Sounds that are taken for one another.

use vstd::prelude::*;
use vstd::utf8::*;
use crate::config::FuzzyPinyinConfig;
use crate::index;
use crate::index::text_lt;
use crate::order::sort_stable;
use crate::text;
use crate::text::{chars_of, ends_with, same_text, starts_with, string_of, to_lower};

verus! {

/// A text with one beginning exchanged for another, either way round; the first is tried
/// first.
pub open spec fn swap_head(v: Seq<char>, a: Seq<char>, b: Seq<char>) -> Option<Seq<char>> {
    if text::begins(v, a) {
        Some(b + v.skip(a.len() as int))
    } else if text::begins(v, b) {
        Some(a + v.skip(b.len() as int))
    } else {
        None
    }
}

/// A text with one ending exchanged for another, either way round; the first is tried first.
pub open spec fn swap_tail(v: Seq<char>, a: Seq<char>, b: Seq<char>) -> Option<Seq<char>> {
    if text::ends(v, a) {
        Some(v.take(v.len() - a.len()) + b)
    } else if text::ends(v, b) {
        Some(v.take(v.len() - b.len()) + a)
    } else {
        None
    }
}

/// A text with every occurrence of one character put in place of another.
pub open spec fn with_char(v: Seq<char>, a: char, b: char) -> Seq<char> {
    v.map_values(
        |c: char|
            if c == a {
                b
            } else {
                c
            },
    )
}

/// A text with every `u` turned into `v`, or with none every `v` into `u`.
pub open spec fn swap_u_v(v: Seq<char>) -> Option<Seq<char>> {
    if with_char(v, 'u', 'v') != v {
        Some(with_char(v, 'u', 'v'))
    } else if with_char(v, 'v', 'u') != v {
        Some(with_char(v, 'v', 'u'))
    } else {
        None
    }
}

/// A text with another put in front of it and behind each of its characters.
pub open spec fn interleaved(s: Seq<char>, to: Seq<char>) -> Seq<char>
    decreases s.len(),
{
    if s.len() == 0 {
        to
    } else {
        to + seq![s[0]] + interleaved(s.drop_first(), to)
    }
}

/// A text with every occurrence of a part replaced, from left to right. The empty part occurs
/// around every character.
pub open spec fn replaced(s: Seq<char>, from: Seq<char>, to: Seq<char>) -> Seq<char>
    decreases s.len(),
{
    if from.len() == 0 {
        interleaved(s, to)
    } else if s.len() == 0 {
        s
    } else if text::begins(s, from) {
        to + replaced(s.skip(from.len() as int), from, to)
    } else {
        seq![s[0]] + replaced(s.drop_first(), from, to)
    }
}

/// A list with a text appended, unless it holds it already.
pub open spec fn with_text(l: Seq<Seq<char>>, w: Seq<char>) -> Seq<Seq<char>> {
    if l.contains(w) {
        l
    } else {
        l.push(w)
    }
}

/// A list after a rule was applied: where it is on and gives a text, that is appended.
pub open spec fn ruled(l: Seq<Seq<char>>, on: bool, w: Option<Seq<char>>) -> Seq<Seq<char>> {
    match w {
        Some(x) => if on {
            with_text(l, x)
        } else {
            l
        },
        None => l,
    }
}

/// A list after the rules for beginnings were applied to a text.
pub open spec fn heads_added(f: FuzzyPinyinConfig, l: Seq<Seq<char>>, v: Seq<char>) -> Seq<Seq<char>> {
    let l1 = ruled(l, f.z_zh, swap_head(v, "zh"@, "z"@));
    let l2 = ruled(l1, f.c_ch, swap_head(v, "ch"@, "c"@));
    let l3 = ruled(l2, f.s_sh, swap_head(v, "sh"@, "s"@));
    let l4 = ruled(l3, f.n_l, swap_head(v, "n"@, "l"@));
    let l5 = ruled(l4, f.r_l, swap_head(v, "r"@, "l"@));
    ruled(l5, f.f_h, swap_head(v, "f"@, "h"@))
}

/// A list after the rules for endings were applied to a text.
pub open spec fn tails_added(f: FuzzyPinyinConfig, l: Seq<Seq<char>>, v: Seq<char>) -> Seq<Seq<char>> {
    let l1 = ruled(l, f.an_ang, swap_tail(v, "ang"@, "an"@));
    let l2 = ruled(l1, f.en_eng, swap_tail(v, "eng"@, "en"@));
    let l3 = ruled(l2, f.in_ing, swap_tail(v, "ing"@, "in"@));
    let l4 = ruled(l3, f.ian_iang, swap_tail(v, "iang"@, "ian"@));
    let l5 = ruled(l4, f.uan_uang, swap_tail(v, "uang"@, "uan"@));
    ruled(l5, f.u_v, swap_u_v(v))
}

/// A list after the rules for endings were applied to the first `n` of some texts.
pub open spec fn all_tails_added(f: FuzzyPinyinConfig, l: Seq<Seq<char>>, n: int) -> Seq<Seq<char>>
    decreases n,
{
    if n <= 0 || n > l.len() {
        l
    } else {
        tails_added(f, all_tails_added(f, l, n - 1), l[n - 1])
    }
}

/// What a mapping of one's own makes of a text, where it changes it.
pub open spec fn mapped(f: FuzzyPinyinConfig, v: Seq<char>, i: int) -> Option<Seq<char>> {
    let w = replaced(v, f.custom_mappings@[i].0@, f.custom_mappings@[i].1@);
    if w != v {
        Some(w)
    } else {
        None
    }
}

/// A list after the first `m` mappings of one's own were applied to a text.
pub open spec fn maps_added(f: FuzzyPinyinConfig, l: Seq<Seq<char>>, v: Seq<char>, m: int) -> Seq<
    Seq<char>,
>
    decreases m,
{
    if m <= 0 || m > f.custom_mappings@.len() {
        l
    } else {
        ruled(maps_added(f, l, v, m - 1), true, mapped(f, v, m - 1))
    }
}

/// A list after the mappings of one's own were applied to the first `n` of some texts.
pub open spec fn all_maps_added(f: FuzzyPinyinConfig, l: Seq<Seq<char>>, n: int) -> Seq<Seq<char>>
    decreases n,
{
    if n <= 0 || n > l.len() {
        l
    } else {
        maps_added(f, all_maps_added(f, l, n - 1), l[n - 1], f.custom_mappings@.len() as int)
    }
}

/// The order of a list of variants.
pub open spec fn by_text() -> spec_fn(Seq<char>, Seq<char>) -> bool {
    |a: Seq<char>, b: Seq<char>| index::text_before(a, b)
}

/// The variants of a syllable before they are put in order: itself in lower case, with the
/// beginning exchanged, with the ending of any of these exchanged, and with the mappings of
/// one's own applied to all of them.
pub open spec fn variants_found(f: FuzzyPinyinConfig, seg: Seq<char>) -> Seq<Seq<char>> {
    let v = text::lowercase(seg);
    let heads = heads_added(f, seq![v], v);
    let tails = all_tails_added(f, heads, heads.len() as int);
    all_maps_added(f, tails, tails.len() as int)
}

/// The variants of a syllable, in the order of their bytes.
pub open spec fn variants(f: FuzzyPinyinConfig, seg: Seq<char>) -> Seq<Seq<char>> {
    crate::order::arranged(variants_found(f, seg), by_text())
}

/// Exchanges one beginning for another.
fn exchange_head(v: &str, a: &str, b: &str) -> (r: Option<String>)
    ensures
        r is Some <==> swap_head(v@, a@, b@) is Some,
        r matches Some(w) ==> swap_head(v@, a@, b@) == Some(w@),
{
    if starts_with(v, a) {
        Some(splice_head(v, a, b))
    } else if starts_with(v, b) {
        Some(splice_head(v, b, a))
    } else {
        None
    }
}

/// Puts a text in the place of a beginning.
fn splice_head(v: &str, from: &str, to: &str) -> (r: String)
    requires
        text::begins(v@, from@),
    ensures
        r@ == to@ + v@.skip(from@.len() as int),
{
    let c = chars_of(v);
    let n = chars_of(from).len();
    let rest = string_of(vstd::slice::slice_subrange(c.as_slice(), n, c.len()));
    proof {
        assert(rest@ =~= v@.skip(n as int));
    }
    let mut out = to.to_owned();
    out.append(rest.as_str());
    out
}

/// Exchanges one ending for another.
fn exchange_tail(v: &str, a: &str, b: &str) -> (r: Option<String>)
    ensures
        r is Some <==> swap_tail(v@, a@, b@) is Some,
        r matches Some(w) ==> swap_tail(v@, a@, b@) == Some(w@),
{
    if ends_with(v, a) {
        Some(splice_tail(v, a, b))
    } else if ends_with(v, b) {
        Some(splice_tail(v, b, a))
    } else {
        None
    }
}

/// Puts a text in the place of an ending.
fn splice_tail(v: &str, from: &str, to: &str) -> (r: String)
    requires
        text::ends(v@, from@),
    ensures
        r@ == v@.take(v@.len() - from@.len()) + to@,
{
    let c = chars_of(v);
    let n: usize = c.len() - chars_of(from).len();
    let mut out = string_of(vstd::slice::slice_subrange(c.as_slice(), 0, n));
    proof {
        assert(out@ =~= v@.take(n as int));
    }
    out.append(to);
    out
}

/// Puts one character in the place of another.
fn exchange_char(v: &str, a: char, b: char) -> (r: String)
    ensures
        r@ == with_char(v@, a, b),
{
    let c = chars_of(v);
    let mut out = String::new();
    let mut i: usize = 0;
    while i < c.len()
        invariant
            i <= c.len(),
            c@ == v@,
            out@ == with_char(v@, a, b).take(i as int),
        decreases c.len() - i,
    {
        let x = if c[i] == a {
            b
        } else {
            c[i]
        };
        proof {
            let w = with_char(v@, a, b);
            assert(w.take(i as int).push(x) =~= w.take(i + 1));
        }
        out.push(x);
        i = i + 1;
    }
    proof {
        let w = with_char(v@, a, b);
        assert(w.take(w.len() as int) =~= w);
    }
    out
}

/// Turns every `u` into `v`, or with none every `v` into `u`.
fn exchange_u_v(v: &str) -> (r: Option<String>)
    ensures
        r is Some <==> swap_u_v(v@) is Some,
        r matches Some(w) ==> swap_u_v(v@) == Some(w@),
{
    let a = exchange_char(v, 'u', 'v');
    if !same_text(a.as_str(), v) {
        return Some(a);
    }
    let b = exchange_char(v, 'v', 'u');
    if !same_text(b.as_str(), v) {
        return Some(b);
    }
    None
}

/// Replaces every occurrence of a part, from left to right.
pub fn replace_all(s: &str, from: &str, to: &str) -> (r: String)
    ensures
        r@ == replaced(s@, from@, to@),
{
    let c = chars_of(s);
    let f = chars_of(from);
    let mut out = String::new();
    if f.len() == 0 {
        let mut i: usize = 0;
        proof {
            assert(c@.skip(0) =~= c@);
            assert(out@ + interleaved(c@, to@) =~= interleaved(c@, to@));
        }
        while i < c.len()
            invariant
                i <= c.len(),
                c@ == s@,
                out@ + interleaved(c@.skip(i as int), to@) == interleaved(c@, to@),
            decreases c.len() - i,
        {
            let ghost was = out@;
            out.append(to);
            out.push(c[i]);
            proof {
                let r = c@.skip(i as int);
                assert(r[0] == c@[i as int]);
                assert(r.drop_first() =~= c@.skip(i + 1));
                assert(was + (to@ + seq![r[0]] + interleaved(r.drop_first(), to@)) =~= out@
                    + interleaved(c@.skip(i + 1), to@));
            }
            i = i + 1;
        }
        out.append(to);
        return out;
    }
    let mut i: usize = 0;
    proof {
        assert(c@.skip(0) =~= c@);
        assert(out@ + replaced(c@, from@, to@) =~= replaced(c@, from@, to@));
    }
    while i < c.len()
        invariant
            i <= c.len(),
            c@ == s@,
            f@ == from@,
            f.len() > 0,
            out@ + replaced(c@.skip(i as int), from@, to@) == replaced(c@, from@, to@),
        decreases c.len() - i,
    {
        let ghost was = out@;
        let ghost r = c@.skip(i as int);
        if at_place(c.as_slice(), i, f.as_slice()) {
            out.append(to);
            proof {
                assert(r.skip(f@.len() as int) =~= c@.skip(i + f@.len()));
                assert(was + (to@ + replaced(r.skip(f@.len() as int), from@, to@)) =~= out@ + replaced(
                    c@.skip(i + f@.len()),
                    from@,
                    to@,
                ));
            }
            i = i + f.len();
        } else {
            out.push(c[i]);
            proof {
                assert(r[0] == c@[i as int]);
                assert(r.drop_first() =~= c@.skip(i + 1));
                assert(was + (seq![r[0]] + replaced(r.drop_first(), from@, to@)) =~= out@ + replaced(
                    c@.skip(i + 1),
                    from@,
                    to@,
                ));
            }
            i = i + 1;
        }
    }
    proof {
        assert(c@.skip(c@.len() as int) =~= Seq::<char>::empty());
        assert(out@ + Seq::<char>::empty() =~= out@);
    }
    out
}

/// Whether a part stands at a place.
fn at_place(c: &[char], i: usize, f: &[char]) -> (r: bool)
    requires
        i <= c@.len(),
    ensures
        r == text::begins(c@.skip(i as int), f@),
        r ==> i + f@.len() <= c@.len(),
{
    let ghost rest = c@.skip(i as int);
    if f.len() > c.len() - i {
        return false;
    }
    let mut k: usize = 0;
    while k < f.len()
        invariant
            k <= f.len(),
            i + f.len() <= c.len(),
            rest == c@.skip(i as int),
            forall|j: int| 0 <= j < k ==> rest[j] == f@[j],
        decreases f.len() - k,
    {
        proof {
            assert(rest[k as int] == c@[i + k]);
            if text::begins(rest, f@) {
                assert(rest.take(f@.len() as int)[k as int] == rest[k as int]);
            }
        }
        if c[i + k] != f[k] {
            return false;
        }
        k = k + 1;
    }
    proof {
        assert(rest.take(f@.len() as int) =~= f@);
    }
    true
}

/// Appends a text to a list that does not hold it.
fn add_text(l: &mut Vec<String>, w: String)
    ensures
        text::texts(final(l)@) == with_text(text::texts(old(l)@), w@),
{
    let ghost s = text::texts(l@);
    let mut i: usize = 0;
    while i < l.len()
        invariant
            i <= l.len(),
            s == text::texts(l@),
            forall|j: int| 0 <= j < i ==> s[j] != w@,
        decreases l.len() - i,
    {
        proof {
            assert(s[i as int] == l@[i as int]@);
        }
        if same_text(l[i].as_str(), w.as_str()) {
            proof {
                assert(s.contains(s[i as int]));
            }
            return ;
        }
        i = i + 1;
    }
    l.push(w);
    proof {
        assert(text::texts(l@) =~= s.push(w@));
    }
}

/// Appends what a rule gives, where it is on.
fn add_ruled(l: &mut Vec<String>, on: bool, w: Option<String>)
    ensures
        text::texts(final(l)@) == ruled(
            text::texts(old(l)@),
            on,
            match w {
                Some(x) => Some(x@),
                None => None,
            },
        ),
{
    match w {
        Some(x) => {
            if on {
                add_text(l, x);
            }
        },
        None => {},
    }
}

/// Whether a text comes before another.
fn before(a: &String, b: &String) -> (r: bool)
    ensures
        r == index::text_before(a@, b@),
{
    text_lt(a.as_str(), b.as_str())
}

/// Puts texts in the order of their bytes.
pub(crate) fn sort_texts(l: &mut Vec<String>)
    ensures
        text::texts(final(l)@) == crate::order::arranged(text::texts(old(l)@), by_text()),
{
    let ghost s = l@;
    let ghost lt = |a: String, b: String| index::text_before(a@, b@);
    sort_stable(l, before, Ghost(lt));
    proof {
        lemma_arranged_texts(s);
    }
}

proof fn lemma_placed_texts(x: String, s: Seq<String>)
    ensures
        text::texts(
            crate::order::placed(x, s, |a: String, b: String| index::text_before(a@, b@)),
        ) == crate::order::placed(x@, text::texts(s), by_text()),
    decreases s.len(),
{
    let lt = |a: String, b: String| index::text_before(a@, b@);
    if s.len() == 0 || !lt(s[0], x) {
        assert(text::texts(seq![x] + s) =~= seq![x@] + text::texts(s));
        if s.len() > 0 {
            assert(text::texts(s)[0] == s[0]@);
        }
    } else {
        lemma_placed_texts(x, s.drop_first());
        assert(text::texts(s)[0] == s[0]@);
        assert(text::texts(s.drop_first()) =~= text::texts(s).drop_first());
        let t = crate::order::placed(x, s.drop_first(), lt);
        assert(text::texts(seq![s[0]] + t) =~= seq![s[0]@] + text::texts(t));
    }
}

proof fn lemma_arranged_texts(s: Seq<String>)
    ensures
        text::texts(
            crate::order::arranged(s, |a: String, b: String| index::text_before(a@, b@)),
        ) == crate::order::arranged(text::texts(s), by_text()),
    decreases s.len(),
{
    let lt = |a: String, b: String| index::text_before(a@, b@);
    if s.len() == 0 {
        assert(text::texts(s) =~= Seq::<Seq<char>>::empty());
    } else {
        lemma_arranged_texts(s.drop_first());
        lemma_placed_texts(s[0], crate::order::arranged(s.drop_first(), lt));
        assert(text::texts(s.drop_first()) =~= text::texts(s).drop_first());
        assert(text::texts(s)[0] == s[0]@);
    }
}

/// The variants of a syllable under the rules that are on.
pub fn fuzzy_variants_per_segment(seg: &str, fuzzy: &FuzzyPinyinConfig) -> (r: Vec<String>)
    ensures
        text::texts(r@) == variants(*fuzzy, seg@),
{
    let ghost f = *fuzzy;
    let v = to_lower(seg);
    let mut l: Vec<String> = Vec::new();
    l.push(v.clone());
    proof {
        assert(text::texts(l@) =~= seq![v@]);
    }
    let s = v.as_str();
    add_ruled(&mut l, fuzzy.z_zh, exchange_head(s, "zh", "z"));
    add_ruled(&mut l, fuzzy.c_ch, exchange_head(s, "ch", "c"));
    add_ruled(&mut l, fuzzy.s_sh, exchange_head(s, "sh", "s"));
    add_ruled(&mut l, fuzzy.n_l, exchange_head(s, "n", "l"));
    add_ruled(&mut l, fuzzy.r_l, exchange_head(s, "r", "l"));
    add_ruled(&mut l, fuzzy.f_h, exchange_head(s, "f", "h"));
    let ghost heads = text::texts(l@);
    let n = l.len();
    let mut i: usize = 0;
    proof {
        assert(heads =~= all_tails_added(f, heads, 0));
    }
    while i < n
        invariant
            i <= n,
            n == heads.len(),
            f == *fuzzy,
            l@.len() >= n,
            text::texts(l@).take(n as int) == heads,
            text::texts(l@) == all_tails_added(f, heads, i as int),
        decreases n - i,
    {
        proof {
            assert(text::texts(l@).take(n as int)[i as int] == l@[i as int]@);
        }
        let w = l[i].clone();
        let s = w.as_str();
        add_tails(&mut l, s, fuzzy);
        proof {
            lemma_tails_keep(f, all_tails_added(f, heads, i as int), w@, n as int);
        }
        i = i + 1;
    }
    let ghost tails = text::texts(l@);
    let m = l.len();
    i = 0;
    proof {
        assert(tails.take(m as int) =~= tails);
    }
    while i < m
        invariant
            i <= m,
            m == tails.len(),
            f == *fuzzy,
            l@.len() >= m,
            text::texts(l@).take(m as int) == tails,
            text::texts(l@) == all_maps_added(f, tails, i as int),
        decreases m - i,
    {
        proof {
            assert(text::texts(l@).take(m as int)[i as int] == l@[i as int]@);
        }
        let w = l[i].clone();
        let ghost start = text::texts(l@);
        let mut k: usize = 0;
        while k < fuzzy.custom_mappings.len()
            invariant
                k <= fuzzy.custom_mappings.len(),
                f == *fuzzy,
                l@.len() >= m,
                m == tails.len(),
                text::texts(l@).take(m as int) == tails,
                text::texts(l@) == maps_added(f, start, w@, k as int),
            decreases fuzzy.custom_mappings.len() - k,
        {
            let x = replace_all(
                w.as_str(),
                fuzzy.custom_mappings[k].0.as_str(),
                fuzzy.custom_mappings[k].1.as_str(),
            );
            let ghost was = text::texts(l@);
            if !same_text(x.as_str(), w.as_str()) {
                add_text(&mut l, x);
            }
            proof {
                assert(text::texts(l@).len() == l@.len());
                assert(text::texts(l@).take(m as int) =~= was.take(m as int));
            }
            k = k + 1;
        }
        i = i + 1;
    }
    sort_texts(&mut l);
    l
}

/// Applies the rules for endings to a text.
fn add_tails(l: &mut Vec<String>, s: &str, fuzzy: &FuzzyPinyinConfig)
    ensures
        text::texts(final(l)@) == tails_added(*fuzzy, text::texts(old(l)@), s@),
{
    add_ruled(l, fuzzy.an_ang, exchange_tail(s, "ang", "an"));
    add_ruled(l, fuzzy.en_eng, exchange_tail(s, "eng", "en"));
    add_ruled(l, fuzzy.in_ing, exchange_tail(s, "ing", "in"));
    add_ruled(l, fuzzy.ian_iang, exchange_tail(s, "iang", "ian"));
    add_ruled(l, fuzzy.uan_uang, exchange_tail(s, "uang", "uan"));
    add_ruled(l, fuzzy.u_v, exchange_u_v(s));
}

proof fn lemma_tails_keep(f: FuzzyPinyinConfig, l: Seq<Seq<char>>, v: Seq<char>, n: int)
    requires
        0 <= n <= l.len(),
    ensures
        tails_added(f, l, v).len() >= l.len(),
        tails_added(f, l, v).take(n) == l.take(n),
{
    assert(tails_added(f, l, v).take(n) =~= l.take(n));
}


/// Whether a rule for beginnings that is on makes a text of another.
pub open spec fn head_gives(f: FuzzyPinyinConfig, v: Seq<char>, x: Seq<char>) -> bool {
    ||| f.z_zh && swap_head(v, "zh"@, "z"@) == Some(x)
    ||| f.c_ch && swap_head(v, "ch"@, "c"@) == Some(x)
    ||| f.s_sh && swap_head(v, "sh"@, "s"@) == Some(x)
    ||| f.n_l && swap_head(v, "n"@, "l"@) == Some(x)
    ||| f.r_l && swap_head(v, "r"@, "l"@) == Some(x)
    ||| f.f_h && swap_head(v, "f"@, "h"@) == Some(x)
}

/// Whether a rule for endings that is on makes a text of another.
pub open spec fn tail_gives(f: FuzzyPinyinConfig, v: Seq<char>, x: Seq<char>) -> bool {
    ||| f.an_ang && swap_tail(v, "ang"@, "an"@) == Some(x)
    ||| f.en_eng && swap_tail(v, "eng"@, "en"@) == Some(x)
    ||| f.in_ing && swap_tail(v, "ing"@, "in"@) == Some(x)
    ||| f.ian_iang && swap_tail(v, "iang"@, "ian"@) == Some(x)
    ||| f.uan_uang && swap_tail(v, "uang"@, "uan"@) == Some(x)
    ||| f.u_v && swap_u_v(v) == Some(x)
}

/// Whether every rule that is on in one setting is on in another.
pub open spec fn no_more_rules(f: FuzzyPinyinConfig, g: FuzzyPinyinConfig) -> bool {
    &&& f.z_zh ==> g.z_zh
    &&& f.c_ch ==> g.c_ch
    &&& f.s_sh ==> g.s_sh
    &&& f.n_l ==> g.n_l
    &&& f.r_l ==> g.r_l
    &&& f.f_h ==> g.f_h
    &&& f.an_ang ==> g.an_ang
    &&& f.en_eng ==> g.en_eng
    &&& f.in_ing ==> g.in_ing
    &&& f.ian_iang ==> g.ian_iang
    &&& f.uan_uang ==> g.uan_uang
    &&& f.u_v ==> g.u_v
}

/// Whether no rule is on.
pub open spec fn no_rules(f: FuzzyPinyinConfig) -> bool {
    !(f.z_zh || f.c_ch || f.s_sh || f.n_l || f.r_l || f.f_h || f.an_ang || f.en_eng || f.in_ing
        || f.ian_iang || f.uan_uang || f.u_v)
}

proof fn lemma_ruled(l: Seq<Seq<char>>, on: bool, w: Option<Seq<char>>)
    ensures
        forall|x: Seq<char>| #[trigger]
            ruled(l, on, w).contains(x) <==> l.contains(x) || (on && w == Some(x)),
        l.no_duplicates() ==> ruled(l, on, w).no_duplicates(),
{
    let r = ruled(l, on, w);
    assert forall|x: Seq<char>| #[trigger] r.contains(x) <==> l.contains(x) || (on && w == Some(x)) by {
        if on && w is Some && !l.contains(w->0) {
            assert(r[l.len() as int] == w->0);
            if l.contains(x) {
                let i = choose|i: int| 0 <= i < l.len() && l[i] == x;
                assert(r[i] == x);
            }
            if r.contains(x) {
                let i = choose|i: int| 0 <= i < r.len() && r[i] == x;
                if i < l.len() {
                    assert(l[i] == x);
                }
            }
        }
    }
}

proof fn lemma_heads(f: FuzzyPinyinConfig, l: Seq<Seq<char>>, v: Seq<char>)
    ensures
        forall|x: Seq<char>| #[trigger]
            heads_added(f, l, v).contains(x) <==> l.contains(x) || head_gives(f, v, x),
        l.no_duplicates() ==> heads_added(f, l, v).no_duplicates(),
{
    let l1 = ruled(l, f.z_zh, swap_head(v, "zh"@, "z"@));
    let l2 = ruled(l1, f.c_ch, swap_head(v, "ch"@, "c"@));
    let l3 = ruled(l2, f.s_sh, swap_head(v, "sh"@, "s"@));
    let l4 = ruled(l3, f.n_l, swap_head(v, "n"@, "l"@));
    let l5 = ruled(l4, f.r_l, swap_head(v, "r"@, "l"@));
    lemma_ruled(l, f.z_zh, swap_head(v, "zh"@, "z"@));
    lemma_ruled(l1, f.c_ch, swap_head(v, "ch"@, "c"@));
    lemma_ruled(l2, f.s_sh, swap_head(v, "sh"@, "s"@));
    lemma_ruled(l3, f.n_l, swap_head(v, "n"@, "l"@));
    lemma_ruled(l4, f.r_l, swap_head(v, "r"@, "l"@));
    lemma_ruled(l5, f.f_h, swap_head(v, "f"@, "h"@));
}

proof fn lemma_tails(f: FuzzyPinyinConfig, l: Seq<Seq<char>>, v: Seq<char>)
    ensures
        forall|x: Seq<char>| #[trigger]
            tails_added(f, l, v).contains(x) <==> l.contains(x) || tail_gives(f, v, x),
        l.no_duplicates() ==> tails_added(f, l, v).no_duplicates(),
{
    let l1 = ruled(l, f.an_ang, swap_tail(v, "ang"@, "an"@));
    let l2 = ruled(l1, f.en_eng, swap_tail(v, "eng"@, "en"@));
    let l3 = ruled(l2, f.in_ing, swap_tail(v, "ing"@, "in"@));
    let l4 = ruled(l3, f.ian_iang, swap_tail(v, "iang"@, "ian"@));
    let l5 = ruled(l4, f.uan_uang, swap_tail(v, "uang"@, "uan"@));
    lemma_ruled(l, f.an_ang, swap_tail(v, "ang"@, "an"@));
    lemma_ruled(l1, f.en_eng, swap_tail(v, "eng"@, "en"@));
    lemma_ruled(l2, f.in_ing, swap_tail(v, "ing"@, "in"@));
    lemma_ruled(l3, f.ian_iang, swap_tail(v, "iang"@, "ian"@));
    lemma_ruled(l4, f.uan_uang, swap_tail(v, "uang"@, "uan"@));
    lemma_ruled(l5, f.u_v, swap_u_v(v));
}

proof fn lemma_all_tails(f: FuzzyPinyinConfig, l: Seq<Seq<char>>, n: int)
    requires
        0 <= n <= l.len(),
    ensures
        forall|x: Seq<char>| #[trigger]
            all_tails_added(f, l, n).contains(x) <==> l.contains(x) || exists|i: int|
                0 <= i < n && tail_gives(f, #[trigger] l[i], x),
        l.no_duplicates() ==> all_tails_added(f, l, n).no_duplicates(),
    decreases n,
{
    if n > 0 {
        lemma_all_tails(f, l, n - 1);
        let before = all_tails_added(f, l, n - 1);
        lemma_tails(f, before, l[n - 1]);
        assert forall|x: Seq<char>| #[trigger]
            all_tails_added(f, l, n).contains(x) <==> l.contains(x) || exists|i: int|
                0 <= i < n && tail_gives(f, #[trigger] l[i], x) by {
            assert(all_tails_added(f, l, n).contains(x) <==> before.contains(x) || tail_gives(
                f,
                l[n - 1],
                x,
            ));
        }
    }
}

proof fn lemma_maps_keep_distinct(f: FuzzyPinyinConfig, l: Seq<Seq<char>>, v: Seq<char>, m: int)
    requires
        l.no_duplicates(),
    ensures
        maps_added(f, l, v, m).no_duplicates(),
        forall|x: Seq<char>| #[trigger] l.contains(x) ==> maps_added(f, l, v, m).contains(x),
    decreases m,
{
    if 0 < m <= f.custom_mappings@.len() {
        lemma_maps_keep_distinct(f, l, v, m - 1);
        lemma_ruled(maps_added(f, l, v, m - 1), true, mapped(f, v, m - 1));
    }
}

proof fn lemma_all_maps_keep_distinct(f: FuzzyPinyinConfig, l: Seq<Seq<char>>, n: int)
    requires
        l.no_duplicates(),
    ensures
        all_maps_added(f, l, n).no_duplicates(),
        forall|x: Seq<char>| #[trigger] l.contains(x) ==> all_maps_added(f, l, n).contains(x),
        f.custom_mappings@.len() == 0 ==> all_maps_added(f, l, n) == l,
    decreases n,
{
    if 0 < n <= l.len() {
        lemma_all_maps_keep_distinct(f, l, n - 1);
        lemma_maps_keep_distinct(
            f,
            all_maps_added(f, l, n - 1),
            l[n - 1],
            f.custom_mappings@.len() as int,
        );
    }
}

/// What is found for a syllable: no text twice, and without mappings of one's own exactly what
/// the rules give.
proof fn lemma_found(f: FuzzyPinyinConfig, seg: Seq<char>)
    ensures
        variants_found(f, seg).no_duplicates(),
        variants_found(f, seg).contains(text::lowercase(seg)),
        f.custom_mappings@.len() == 0 ==> forall|x: Seq<char>| #[trigger]
            variants_found(f, seg).contains(x) <==> {
                let v = text::lowercase(seg);
                ||| x == v
                ||| head_gives(f, v, x)
                ||| tail_gives(f, v, x)
                ||| exists|h: Seq<char>| #[trigger] head_gives(f, v, h) && tail_gives(f, h, x)
            },
{
    let v = text::lowercase(seg);
    let one = seq![v];
    let heads = heads_added(f, one, v);
    assert forall|x: Seq<char>| #[trigger] one.contains(x) <==> x == v by {
        assert(one[0] == v);
    }
    lemma_heads(f, one, v);
    lemma_all_tails(f, heads, heads.len() as int);
    let tails = all_tails_added(f, heads, heads.len() as int);
    lemma_all_maps_keep_distinct(f, tails, tails.len() as int);
    assert(one.contains(v));
    assert(heads.contains(v));
    assert(tails.contains(v));
    if f.custom_mappings@.len() == 0 {
        assert forall|x: Seq<char>| #[trigger] variants_found(f, seg).contains(x) <==> {
            ||| x == v
            ||| head_gives(f, v, x)
            ||| tail_gives(f, v, x)
            ||| exists|h: Seq<char>| #[trigger] head_gives(f, v, h) && tail_gives(f, h, x)
        } by {
            assert(tails.contains(x) <==> heads.contains(x) || exists|i: int|
                0 <= i < heads.len() && tail_gives(f, #[trigger] heads[i], x));
            if exists|i: int| 0 <= i < heads.len() && tail_gives(f, #[trigger] heads[i], x) {
                let i = choose|i: int| 0 <= i < heads.len() && tail_gives(f, #[trigger] heads[i], x);
                assert(heads.contains(heads[i]));
                assert(one.contains(heads[i]) || head_gives(f, v, heads[i]));
            }
            if tail_gives(f, v, x) {
                assert(heads.contains(v));
                let i = choose|i: int| 0 <= i < heads.len() && heads[i] == v;
                assert(tail_gives(f, heads[i], x));
            }
            if exists|h: Seq<char>| #[trigger] head_gives(f, v, h) && tail_gives(f, h, x) {
                let h = choose|h: Seq<char>| #[trigger] head_gives(f, v, h) && tail_gives(f, h, x);
                assert(heads.contains(h));
                let i = choose|i: int| 0 <= i < heads.len() && heads[i] == h;
                assert(tail_gives(f, heads[i], x));
            }
        }
    }
}

proof fn lemma_by_text_is_order()
    ensures
        crate::order::weak_order(by_text()),
{
    let before = by_text();
    assert forall|a: Seq<char>, b: Seq<char>| #[trigger] before(a, b) implies !before(b, a) by {
        index::lemma_bytes_order(encode_utf8(a), encode_utf8(b));
    }
    assert forall|a: Seq<char>, b: Seq<char>, c: Seq<char>|
        !(#[trigger] before(a, b)) && !(#[trigger] before(b, c)) implies !before(a, c) by {
        let x = encode_utf8(a);
        let y = encode_utf8(b);
        let z = encode_utf8(c);
        if index::bytes_before(x, z) {
            index::lemma_bytes_order(x, y);
            index::lemma_bytes_order(y, z);
            index::lemma_bytes_order(x, z);
            if x != y && y != z {
                index::lemma_bytes_order_transitive(z, y, x);
            }
        }
    }
}

proof fn lemma_variants_hold_found(f: FuzzyPinyinConfig, seg: Seq<char>)
    ensures
        forall|x: Seq<char>| #[trigger] variants(f, seg).contains(x) <==> variants_found(f, seg).contains(
            x,
        ),
        variants(f, seg).no_duplicates(),
        variants(f, seg).len() == variants_found(f, seg).len(),
{
    broadcast use vstd::seq_lib::group_to_multiset_ensures;

    let a = variants_found(f, seg);
    let b = variants(f, seg);
    lemma_found(f, seg);
    crate::order::law_arranged_keeps_items(a, by_text());
    assert forall|x: Seq<char>| #[trigger] b.contains(x) <==> a.contains(x) by {
        assert(a.to_multiset().count(x) == b.to_multiset().count(x));
    }
    a.lemma_multiset_has_no_duplicates();
    b.lemma_multiset_has_no_duplicates_conv();
}

/// Whatever rules are on, a syllable is among its own variants, and none occurs twice.
pub proof fn law_variants_hold_the_syllable(f: FuzzyPinyinConfig, seg: Seq<char>)
    ensures
        variants(f, seg).contains(text::lowercase(seg)),
        variants(f, seg).no_duplicates(),
{
    lemma_found(f, seg);
    lemma_variants_hold_found(f, seg);
}

/// The variants of a syllable rise strictly, by their bytes, so none stands twice.
pub proof fn law_variants_rise(f: FuzzyPinyinConfig, seg: Seq<char>)
    ensures
        forall|i: int, j: int|
            0 <= i < j < variants(f, seg).len() ==> index::text_before(
                #[trigger] variants(f, seg)[i],
                #[trigger] variants(f, seg)[j],
            ),
{
    let r = variants(f, seg);
    lemma_by_text_is_order();
    crate::order::law_arranged_in_order(variants_found(f, seg), by_text());
    lemma_variants_hold_found(f, seg);
    assert forall|i: int, j: int| 0 <= i < j < r.len() implies index::text_before(
        #[trigger] r[i],
        #[trigger] r[j],
    ) by {
        assert(!by_text()(r[j], r[i]));
        assert(r[i] != r[j]);
        if encode_utf8(r[i]) == encode_utf8(r[j]) {
            text::lemma_encoding_is_injective(r[i], r[j]);
        }
        index::lemma_bytes_order(encode_utf8(r[i]), encode_utf8(r[j]));
    }
}

/// Without mappings of one's own, more rules give more variants: what comes of some rules comes
/// of more rules too.
pub proof fn law_variants_grow_with_the_rules(f: FuzzyPinyinConfig, g: FuzzyPinyinConfig, seg: Seq<char>, x: Seq<char>)
    requires
        f.custom_mappings@.len() == 0,
        g.custom_mappings@.len() == 0,
        no_more_rules(f, g),
        variants(f, seg).contains(x),
    ensures
        variants(g, seg).contains(x),
{
    let v = text::lowercase(seg);
    lemma_found(f, seg);
    lemma_found(g, seg);
    lemma_variants_hold_found(f, seg);
    lemma_variants_hold_found(g, seg);
    assert(variants_found(f, seg).contains(x));
    if exists|h: Seq<char>| #[trigger] head_gives(f, v, h) && tail_gives(f, h, x) {
        let h = choose|h: Seq<char>| #[trigger] head_gives(f, v, h) && tail_gives(f, h, x);
        assert(head_gives(g, v, h) && tail_gives(g, h, x));
    }
    assert(variants_found(g, seg).contains(x));
}

/// Without any rule a syllable is its only variant, in lower case.
pub proof fn law_no_rules_no_variants(f: FuzzyPinyinConfig, seg: Seq<char>)
    requires
        f.custom_mappings@.len() == 0,
        no_rules(f),
    ensures
        variants(f, seg) == seq![text::lowercase(seg)],
{
    let v = text::lowercase(seg);
    let r = variants(f, seg);
    lemma_found(f, seg);
    lemma_variants_hold_found(f, seg);
    assert(variants_found(f, seg).contains(v));
    assert(r.contains(v));
    if r.len() > 1 {
        assert(r.contains(r[0]) && r.contains(r[1]));
        assert(variants_found(f, seg).contains(r[0]) && variants_found(f, seg).contains(r[1]));
        assert(r[0] == v && r[1] == v);
    }
    assert(r.contains(r[0]));
    assert(variants_found(f, seg).contains(r[0]));
    assert(r =~= seq![v]);
}

/// Whether every character of a text is a small letter.
spec fn in_small_letters(s: Seq<char>) -> bool {
    forall|i: int| 0 <= i < s.len() ==> 'a' <= #[trigger] s[i] <= 'z'
}

proof fn lemma_small_letters(s: Seq<char>)
    requires
        in_small_letters(s),
    ensures
        text::lowercase(s) == s,
{
    assert forall|i: int| 0 <= i < s.len() implies '\0' <= #[trigger] s[i] <= '\u{7f}'
        || text::unicode_lower(s[i]) == seq![s[i]] by {
        assert('a' <= s[i] <= 'z');
    }
    assert(text::lowercase(s) =~= s);
}

proof fn lemma_given(f: FuzzyPinyinConfig, v: Seq<char>, x: Seq<char>)
    requires
        in_small_letters(v),
        head_gives(f, v, x) || tail_gives(f, v, x),
    ensures
        variants(f, v).contains(x),
{
    lemma_small_letters(v);
    let one = seq![v];
    assert(one[0] == v);
    assert(one.contains(v));
    let heads = heads_added(f, one, v);
    lemma_heads(f, one, v);
    lemma_all_tails(f, heads, heads.len() as int);
    let tails = all_tails_added(f, heads, heads.len() as int);
    assert(heads.contains(v));
    let i = choose|i: int| 0 <= i < heads.len() && heads[i] == v;
    if tail_gives(f, v, x) {
        assert(tail_gives(f, heads[i], x));
    } else {
        assert(heads.contains(x));
    }
    assert(tails.contains(x));
    assert(one.no_duplicates());
    lemma_all_maps_keep_distinct(f, tails, tails.len() as int);
    assert(variants_found(f, v).contains(x));
    lemma_variants_hold_found(f, v);
}

proof fn lemma_head_swapped(f: FuzzyPinyinConfig, a: Seq<char>, b: Seq<char>, rest: Seq<char>)
    ensures
        swap_head(a + rest, a, b) == Some(b + rest),
        !text::begins(b + rest, a) ==> swap_head(b + rest, a, b) == Some(a + rest),
{
    assert((a + rest).take(a.len() as int) =~= a);
    assert((a + rest).skip(a.len() as int) =~= rest);
    assert((b + rest).take(b.len() as int) =~= b);
    assert((b + rest).skip(b.len() as int) =~= rest);
}

proof fn lemma_tail_swapped(f: FuzzyPinyinConfig, a: Seq<char>, b: Seq<char>, start: Seq<char>)
    ensures
        swap_tail(start + a, a, b) == Some(start + b),
        !text::ends(start + b, a) ==> swap_tail(start + b, a, b) == Some(start + a),
{
    assert((start + a).skip(start.len() as int) =~= a);
    assert((start + a).take(start.len() as int) =~= start);
    assert((start + b).skip(start.len() as int) =~= b);
    assert((start + b).take(start.len() as int) =~= start);
}

proof fn lemma_joined_letters(a: Seq<char>, b: Seq<char>)
    requires
        in_small_letters(a),
        in_small_letters(b),
    ensures
        in_small_letters(a + b),
{
    let s = a + b;
    assert forall|i: int| 0 <= i < s.len() implies 'a' <= #[trigger] s[i] <= 'z' by {
        if i < a.len() {
            assert(s[i] == a[i]);
        } else {
            assert(s[i] == b[i - a.len()]);
        }
    }
}

/// With a rule for beginnings on, a syllable that begins with the one has a variant that begins with
/// the other, and the other way round; what follows stays.
pub proof fn law_beginnings_are_exchanged(f: FuzzyPinyinConfig, x: Seq<char>)
    requires
        forall|i: int| 0 <= i < x.len() ==> 'a' <= #[trigger] x[i] <= 'z',
    ensures
        f.z_zh ==> variants(f, "zh"@ + x).contains("z"@ + x),
        f.z_zh && (x.len() == 0 || x[0] != 'h') ==> variants(f, "z"@ + x).contains("zh"@ + x),
        f.c_ch ==> variants(f, "ch"@ + x).contains("c"@ + x),
        f.c_ch && (x.len() == 0 || x[0] != 'h') ==> variants(f, "c"@ + x).contains("ch"@ + x),
        f.s_sh ==> variants(f, "sh"@ + x).contains("s"@ + x),
        f.s_sh && (x.len() == 0 || x[0] != 'h') ==> variants(f, "s"@ + x).contains("sh"@ + x),
        f.n_l ==> variants(f, "n"@ + x).contains("l"@ + x),
        f.n_l ==> variants(f, "l"@ + x).contains("n"@ + x),
        f.r_l ==> variants(f, "r"@ + x).contains("l"@ + x),
        f.r_l ==> variants(f, "l"@ + x).contains("r"@ + x),
        f.f_h ==> variants(f, "f"@ + x).contains("h"@ + x),
        f.f_h ==> variants(f, "h"@ + x).contains("f"@ + x),
{
    reveal_strlit("c");
    assert(in_small_letters("c"@));
    lemma_joined_letters("c"@, x);
    reveal_strlit("ch");
    assert(in_small_letters("ch"@));
    lemma_joined_letters("ch"@, x);
    reveal_strlit("f");
    assert(in_small_letters("f"@));
    lemma_joined_letters("f"@, x);
    reveal_strlit("h");
    assert(in_small_letters("h"@));
    lemma_joined_letters("h"@, x);
    reveal_strlit("l");
    assert(in_small_letters("l"@));
    lemma_joined_letters("l"@, x);
    reveal_strlit("n");
    assert(in_small_letters("n"@));
    lemma_joined_letters("n"@, x);
    reveal_strlit("r");
    assert(in_small_letters("r"@));
    lemma_joined_letters("r"@, x);
    reveal_strlit("s");
    assert(in_small_letters("s"@));
    lemma_joined_letters("s"@, x);
    reveal_strlit("sh");
    assert(in_small_letters("sh"@));
    lemma_joined_letters("sh"@, x);
    reveal_strlit("z");
    assert(in_small_letters("z"@));
    lemma_joined_letters("z"@, x);
    reveal_strlit("zh");
    assert(in_small_letters("zh"@));
    lemma_joined_letters("zh"@, x);
    lemma_head_swapped(f, "zh"@, "z"@, x);
    if f.z_zh {
        lemma_given(f, "zh"@ + x, "z"@ + x);
        if !text::begins("z"@ + x, "zh"@) {
            lemma_given(f, "z"@ + x, "zh"@ + x);
        }
    }
    if text::begins("z"@ + x, "zh"@) {
        assert(("z"@ + x).take(2)[1] == "zh"@[1]);
        assert(("z"@ + x)[1] == x[0]);
    }
    lemma_head_swapped(f, "ch"@, "c"@, x);
    if f.c_ch {
        lemma_given(f, "ch"@ + x, "c"@ + x);
        if !text::begins("c"@ + x, "ch"@) {
            lemma_given(f, "c"@ + x, "ch"@ + x);
        }
    }
    if text::begins("c"@ + x, "ch"@) {
        assert(("c"@ + x).take(2)[1] == "ch"@[1]);
        assert(("c"@ + x)[1] == x[0]);
    }
    lemma_head_swapped(f, "sh"@, "s"@, x);
    if f.s_sh {
        lemma_given(f, "sh"@ + x, "s"@ + x);
        if !text::begins("s"@ + x, "sh"@) {
            lemma_given(f, "s"@ + x, "sh"@ + x);
        }
    }
    if text::begins("s"@ + x, "sh"@) {
        assert(("s"@ + x).take(2)[1] == "sh"@[1]);
        assert(("s"@ + x)[1] == x[0]);
    }
    lemma_head_swapped(f, "n"@, "l"@, x);
    if f.n_l {
        lemma_given(f, "n"@ + x, "l"@ + x);
        if !text::begins("l"@ + x, "n"@) {
            lemma_given(f, "l"@ + x, "n"@ + x);
        }
    }
    if text::begins("l"@ + x, "n"@) {
        assert(("l"@ + x).take(1)[0] == "n"@[0]);
    }
    lemma_head_swapped(f, "r"@, "l"@, x);
    if f.r_l {
        lemma_given(f, "r"@ + x, "l"@ + x);
        if !text::begins("l"@ + x, "r"@) {
            lemma_given(f, "l"@ + x, "r"@ + x);
        }
    }
    if text::begins("l"@ + x, "r"@) {
        assert(("l"@ + x).take(1)[0] == "r"@[0]);
    }
    lemma_head_swapped(f, "f"@, "h"@, x);
    if f.f_h {
        lemma_given(f, "f"@ + x, "h"@ + x);
        if !text::begins("h"@ + x, "f"@) {
            lemma_given(f, "h"@ + x, "f"@ + x);
        }
    }
    if text::begins("h"@ + x, "f"@) {
        assert(("h"@ + x).take(1)[0] == "f"@[0]);
    }
}

/// With a rule for endings on, a syllable that ends with the one has a variant that ends with the
/// other, and the other way round; what stands before stays.
pub proof fn law_endings_are_exchanged(f: FuzzyPinyinConfig, x: Seq<char>)
    requires
        forall|i: int| 0 <= i < x.len() ==> 'a' <= #[trigger] x[i] <= 'z',
    ensures
        f.an_ang ==> variants(f, x + "ang"@).contains(x + "an"@),
        f.an_ang ==> variants(f, x + "an"@).contains(x + "ang"@),
        f.en_eng ==> variants(f, x + "eng"@).contains(x + "en"@),
        f.en_eng ==> variants(f, x + "en"@).contains(x + "eng"@),
        f.in_ing ==> variants(f, x + "ing"@).contains(x + "in"@),
        f.in_ing ==> variants(f, x + "in"@).contains(x + "ing"@),
        f.ian_iang ==> variants(f, x + "iang"@).contains(x + "ian"@),
        f.ian_iang ==> variants(f, x + "ian"@).contains(x + "iang"@),
        f.uan_uang ==> variants(f, x + "uang"@).contains(x + "uan"@),
        f.uan_uang ==> variants(f, x + "uan"@).contains(x + "uang"@),
{
    reveal_strlit("an");
    assert(in_small_letters("an"@));
    lemma_joined_letters(x, "an"@);
    reveal_strlit("ang");
    assert(in_small_letters("ang"@));
    lemma_joined_letters(x, "ang"@);
    reveal_strlit("en");
    assert(in_small_letters("en"@));
    lemma_joined_letters(x, "en"@);
    reveal_strlit("eng");
    assert(in_small_letters("eng"@));
    lemma_joined_letters(x, "eng"@);
    reveal_strlit("ian");
    assert(in_small_letters("ian"@));
    lemma_joined_letters(x, "ian"@);
    reveal_strlit("iang");
    assert(in_small_letters("iang"@));
    lemma_joined_letters(x, "iang"@);
    reveal_strlit("in");
    assert(in_small_letters("in"@));
    lemma_joined_letters(x, "in"@);
    reveal_strlit("ing");
    assert(in_small_letters("ing"@));
    lemma_joined_letters(x, "ing"@);
    reveal_strlit("uan");
    assert(in_small_letters("uan"@));
    lemma_joined_letters(x, "uan"@);
    reveal_strlit("uang");
    assert(in_small_letters("uang"@));
    lemma_joined_letters(x, "uang"@);
    lemma_tail_swapped(f, "ang"@, "an"@, x);
    if text::ends(x + "an"@, "ang"@) {
        let s = x + "an"@;
        assert(s.skip(s.len() - 3)[2] == "ang"@[2]);
        assert(s[s.len() - 1] == "an"@[1]);
    }
    if f.an_ang {
        lemma_given(f, x + "ang"@, x + "an"@);
        lemma_given(f, x + "an"@, x + "ang"@);
    }
    lemma_tail_swapped(f, "eng"@, "en"@, x);
    if text::ends(x + "en"@, "eng"@) {
        let s = x + "en"@;
        assert(s.skip(s.len() - 3)[2] == "eng"@[2]);
        assert(s[s.len() - 1] == "en"@[1]);
    }
    if f.en_eng {
        lemma_given(f, x + "eng"@, x + "en"@);
        lemma_given(f, x + "en"@, x + "eng"@);
    }
    lemma_tail_swapped(f, "ing"@, "in"@, x);
    if text::ends(x + "in"@, "ing"@) {
        let s = x + "in"@;
        assert(s.skip(s.len() - 3)[2] == "ing"@[2]);
        assert(s[s.len() - 1] == "in"@[1]);
    }
    if f.in_ing {
        lemma_given(f, x + "ing"@, x + "in"@);
        lemma_given(f, x + "in"@, x + "ing"@);
    }
    lemma_tail_swapped(f, "iang"@, "ian"@, x);
    if text::ends(x + "ian"@, "iang"@) {
        let s = x + "ian"@;
        assert(s.skip(s.len() - 4)[3] == "iang"@[3]);
        assert(s[s.len() - 1] == "ian"@[2]);
    }
    if f.ian_iang {
        lemma_given(f, x + "iang"@, x + "ian"@);
        lemma_given(f, x + "ian"@, x + "iang"@);
    }
    lemma_tail_swapped(f, "uang"@, "uan"@, x);
    if text::ends(x + "uan"@, "uang"@) {
        let s = x + "uan"@;
        assert(s.skip(s.len() - 4)[3] == "uang"@[3]);
        assert(s[s.len() - 1] == "uan"@[2]);
    }
    if f.uan_uang {
        lemma_given(f, x + "uang"@, x + "uan"@);
        lemma_given(f, x + "uan"@, x + "uang"@);
    }
}

} // verus!
