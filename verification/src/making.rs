//! What is promised of dictionaries in the making: what is read of their sources, and when they are
//! made anew.

use vstd::prelude::*;
use crate::building;
use crate::building::SourceFile;
use crate::json;
use crate::json::JsonView;
use crate::source;
use crate::strmap;
use crate::text;
use crate::trie::Entry;

verus! {

/// The entries under a key of a dictionary in the making.
pub open spec fn list_under(d: Seq<(Seq<char>, Seq<Entry>)>, k: Seq<char>) -> Seq<Entry> {
    match strmap::lookup(d, k) {
        Some(l) => l,
        None => Seq::empty(),
    }
}

/// Whether every entry of a dictionary in the making is still at its place in another.
pub open spec fn goes_on(d: Seq<(Seq<char>, Seq<Entry>)>, e: Seq<(Seq<char>, Seq<Entry>)>) -> bool {
    forall|k: Seq<char>| #[trigger]
        list_under(d, k).len() <= list_under(e, k).len() && list_under(e, k).take(
            list_under(d, k).len() as int,
        ) == list_under(d, k)
}

/// Whether an entry for a word stands under a key, behind a place.
pub open spec fn stands_from(
    d: Seq<(Seq<char>, Seq<Entry>)>,
    k: Seq<char>,
    from: int,
    word: Seq<char>,
) -> bool {
    exists|j: int| from <= j < list_under(d, k).len() && (#[trigger] list_under(d, k)[j]).word == word
}

/// An entry that is added goes behind the others under its key, and no other key changes.
pub proof fn law_entries_go_behind_the_others(
    d: Seq<(Seq<char>, Seq<Entry>)>,
    k: Seq<char>,
    e: Entry,
    other: Seq<char>,
)
    ensures
        list_under(source::added(d, k, e), k) == list_under(d, k).push(e),
        other != k ==> list_under(source::added(d, k, e), other) == list_under(d, other),
        goes_on(d, source::added(d, k, e)),
{
    strmap::law_put_lookup(d, k, list_under(d, k).push(e), other);
    assert forall|x: Seq<char>| #[trigger]
        list_under(d, x).len() <= list_under(source::added(d, k, e), x).len() && list_under(
            source::added(d, k, e),
            x,
        ).take(list_under(d, x).len() as int) == list_under(d, x) by {
        strmap::law_put_lookup(d, k, list_under(d, k).push(e), x);
        assert(list_under(d, k).push(e).take(list_under(d, k).len() as int) =~= list_under(d, k));
        assert(list_under(d, x).take(list_under(d, x).len() as int) =~= list_under(d, x));
    }
}

proof fn lemma_goes_on(
    a: Seq<(Seq<char>, Seq<Entry>)>,
    b: Seq<(Seq<char>, Seq<Entry>)>,
    c: Seq<(Seq<char>, Seq<Entry>)>,
)
    requires
        goes_on(a, b),
        goes_on(b, c),
    ensures
        goes_on(a, c),
{
    assert forall|k: Seq<char>| #[trigger]
        list_under(a, k).len() <= list_under(c, k).len() && list_under(c, k).take(
            list_under(a, k).len() as int,
        ) == list_under(a, k) by {
        let n = list_under(a, k).len() as int;
        assert(list_under(b, k).len() <= list_under(c, k).len());
        assert(list_under(c, k).take(n) =~= list_under(c, k).take(
            list_under(b, k).len() as int,
        ).take(n));
    }
}

proof fn lemma_stays(
    a: Seq<(Seq<char>, Seq<Entry>)>,
    b: Seq<(Seq<char>, Seq<Entry>)>,
    k: Seq<char>,
    from: int,
    word: Seq<char>,
)
    requires
        goes_on(a, b),
        0 <= from,
        stands_from(a, k, from, word),
    ensures
        stands_from(b, k, from, word),
{
    let j = choose|j: int|
        from <= j < list_under(a, k).len() && (#[trigger] list_under(a, k)[j]).word == word;
    assert(list_under(a, k).len() <= list_under(b, k).len());
    assert(list_under(b, k).take(list_under(a, k).len() as int)[j] == list_under(b, k)[j]);
}

proof fn lemma_same(d: Seq<(Seq<char>, Seq<Entry>)>)
    ensures
        goes_on(d, d),
{
    assert forall|k: Seq<char>| #[trigger]
        list_under(d, k).len() <= list_under(d, k).len() && list_under(d, k).take(
            list_under(d, k).len() as int,
        ) == list_under(d, k) by {
        assert(list_under(d, k).take(list_under(d, k).len() as int) =~= list_under(d, k));
    }
}

/// The word that an item of a list names: its text, or the member `char` of an object.
pub open spec fn named(v: JsonView) -> Option<Seq<char>> {
    match v {
        JsonView::Text(s) => Some(s),
        JsonView::Object(_) => match json::member(v, "char"@) {
            Some(JsonView::Text(s)) => Some(s),
            _ => None,
        },
        _ => None,
    }
}

/// The key of an item: that of its list, or by a field of an object that is asked for.
pub open spec fn key_of(v: JsonView, key: Seq<char>, field: Option<Seq<char>>) -> Option<Seq<char>> {
    match (v, field) {
        (JsonView::Object(_), Some(f)) => match json::member(v, f) {
            Some(JsonView::Text(s)) => if text::lowercase(s).len() > 0 {
                Some(text::lowercase(s))
            } else {
                None
            },
            _ => None,
        },
        _ => Some(key),
    }
}

proof fn lemma_item(
    d: Seq<(Seq<char>, Seq<Entry>)>,
    key: Seq<char>,
    v: JsonView,
    field: Option<Seq<char>>,
)
    requires
        text::lowercase(Seq::empty()).len() == 0,
    ensures
        goes_on(d, source::item_added(d, key, v, field)),
        named(v) is Some && key_of(v, key, field) is Some ==> stands_from(
            source::item_added(d, key, v, field),
            key_of(v, key, field)->0,
            list_under(d, key_of(v, key, field)->0).len() as int,
            named(v)->0,
        ),
        named(v) is None || key_of(v, key, field) is None ==> source::item_added(d, key, v, field) == d,
{
    lemma_same(d);
    if named(v) is Some && key_of(v, key, field) is Some {
        let k = key_of(v, key, field)->0;
        let e = if v is Text {
            source::plain_entry(v->Text_0, Seq::empty())
        } else {
            source::described(v, named(v)->0)
        };
        assert(source::item_added(d, key, v, field) == source::added(d, k, e));
        law_entries_go_behind_the_others(d, k, e, k);
        assert(list_under(source::added(d, k, e), k)[list_under(d, k).len() as int].word
            == named(v)->0);
    }
}

proof fn lemma_items(
    d: Seq<(Seq<char>, Seq<Entry>)>,
    key: Seq<char>,
    items: Seq<JsonView>,
    n: int,
    field: Option<Seq<char>>,
    i: int,
)
    requires
        text::lowercase(Seq::empty()).len() == 0,
        0 <= n <= items.len(),
    ensures
        goes_on(d, source::items_added(d, key, items, n, field)),
        0 <= i < n && named(items[i]) is Some && key_of(items[i], key, field) is Some ==> stands_from(
            source::items_added(d, key, items, n, field),
            key_of(items[i], key, field)->0,
            list_under(d, key_of(items[i], key, field)->0).len() as int,
            named(items[i])->0,
        ),
    decreases n,
{
    lemma_same(d);
    if n > 0 {
        let before = source::items_added(d, key, items, n - 1, field);
        lemma_items(d, key, items, n - 1, field, i);
        lemma_item(before, key, items[n - 1], field);
        let after = source::items_added(d, key, items, n, field);
        lemma_goes_on(d, before, after);
        if 0 <= i < n && named(items[i]) is Some && key_of(items[i], key, field) is Some {
            let k = key_of(items[i], key, field)->0;
            assert(list_under(d, k).len() <= list_under(before, k).len());
            if i < n - 1 {
                lemma_stays(before, after, k, list_under(d, k).len() as int, named(items[i])->0);
            }
        }
    }
}

proof fn lemma_members(
    d: Seq<(Seq<char>, Seq<Entry>)>,
    m: Seq<(Seq<char>, JsonView)>,
    n: int,
    english: bool,
    field: Option<Seq<char>>,
)
    requires
        text::lowercase(Seq::empty()).len() == 0,
        0 <= n <= m.len(),
    ensures
        goes_on(d, source::members_added(d, m, n, english, field)),
    decreases n,
{
    lemma_same(d);
    if n > 0 {
        lemma_members(d, m, n - 1, english, field);
        let before = source::members_added(d, m, n - 1, english, field);
        lemma_same(before);
        if let JsonView::Array(items) = m[n - 1].1 {
            let k = text::lowercase(m[n - 1].0);
            lemma_items(before, k, items, items.len() as int, field, 0);
            law_entries_go_behind_the_others(
                before,
                k,
                source::plain_entry(m[n - 1].0, source::first_text(items)),
                k,
            );
        }
        lemma_goes_on(d, before, source::members_added(d, m, n, english, field));
    }
}

proof fn lemma_no_letters()
    ensures
        text::lowercase(Seq::empty()).len() == 0,
{
    let e: Seq<char> = Seq::empty();
    assert(text::small_beyond_ascii(e));
    text::lemma_lowercase_twice(e);
}

/// Every word that an item of a list of a source names stands in the dictionary: under the key of its
/// list in small letters, or under the field of the item that is asked for. What was there before
/// keeps its place.
pub proof fn law_words_of_a_source_are_read(
    d: Seq<(Seq<char>, Seq<Entry>)>,
    m: Seq<(Seq<char>, JsonView)>,
    field: Option<Seq<char>>,
    i: int,
    j: int,
)
    requires
        0 <= i < m.len(),
        m[i].1 is Array,
        0 <= j < m[i].1->Array_0.len(),
        named(m[i].1->Array_0[j]) is Some,
        key_of(m[i].1->Array_0[j], text::lowercase(m[i].0), field) is Some,
    ensures
        goes_on(d, source::tree_added(d, JsonView::Object(m), false, field)),
        stands_from(
            source::tree_added(d, JsonView::Object(m), false, field),
            key_of(m[i].1->Array_0[j], text::lowercase(m[i].0), field)->0,
            list_under(d, key_of(m[i].1->Array_0[j], text::lowercase(m[i].0), field)->0).len() as int,
            named(m[i].1->Array_0[j])->0,
        ),
{
    lemma_no_letters();
    lemma_members(d, m, m.len() as int, false, field);
    lemma_word_of_member(d, m, m.len() as int, field, i, j);
}

proof fn lemma_word_of_member(
    d: Seq<(Seq<char>, Seq<Entry>)>,
    m: Seq<(Seq<char>, JsonView)>,
    n: int,
    field: Option<Seq<char>>,
    i: int,
    j: int,
)
    requires
        text::lowercase(Seq::empty()).len() == 0,
        0 <= i < n <= m.len(),
        m[i].1 is Array,
        0 <= j < m[i].1->Array_0.len(),
        named(m[i].1->Array_0[j]) is Some,
        key_of(m[i].1->Array_0[j], text::lowercase(m[i].0), field) is Some,
    ensures
        stands_from(
            source::members_added(d, m, n, false, field),
            key_of(m[i].1->Array_0[j], text::lowercase(m[i].0), field)->0,
            list_under(d, key_of(m[i].1->Array_0[j], text::lowercase(m[i].0), field)->0).len() as int,
            named(m[i].1->Array_0[j])->0,
        ),
    decreases n,
{
    let items = m[i].1->Array_0;
    let k = key_of(items[j], text::lowercase(m[i].0), field)->0;
    let from = list_under(d, k).len() as int;
    let before = source::members_added(d, m, n - 1, false, field);
    let after = source::members_added(d, m, n, false, field);
    lemma_members(d, m, n - 1, false, field);
    if i == n - 1 {
        lemma_items(before, text::lowercase(m[i].0), items, items.len() as int, field, j);
        assert(list_under(d, k).len() <= list_under(before, k).len());
    } else {
        lemma_word_of_member(d, m, n - 1, field, i, j);
        lemma_same(before);
        if let JsonView::Array(others) = m[n - 1].1 {
            lemma_items(before, text::lowercase(m[n - 1].0), others, others.len() as int, field, 0);
        }
        lemma_stays(before, after, k, from, named(items[j])->0);
    }
}

/// Of an English source the word is the key as it is written, under the key in small letters, and its
/// gloss is the first text of its list.
pub proof fn law_english_words_have_their_first_gloss(
    d: Seq<(Seq<char>, Seq<Entry>)>,
    key: Seq<char>,
    items: Seq<JsonView>,
    i: int,
    field: Option<Seq<char>>,
)
    requires
        0 <= i < items.len(),
        items[i] is Text,
        forall|j: int| 0 <= j < i ==> !((#[trigger] items[j]) is Text),
    ensures
        ({
            let k = text::lowercase(key);
            let l = list_under(source::member_added(d, key, JsonView::Array(items), true, field), k);
            &&& l.len() == list_under(d, k).len() + 1
            &&& l.last().word == key
            &&& l.last().en == items[i]->Text_0
        }),
{
    lemma_first_text(items, i);
    let k = text::lowercase(key);
    law_entries_go_behind_the_others(
        d,
        k,
        source::plain_entry(key, source::first_text(items)),
        k,
    );
}

proof fn lemma_first_text(items: Seq<JsonView>, i: int)
    requires
        0 <= i < items.len(),
        items[i] is Text,
        forall|j: int| 0 <= j < i ==> !((#[trigger] items[j]) is Text),
    ensures
        source::first_text(items) == items[i]->Text_0,
    decreases i,
{
    if i > 0 {
        assert(!(items[0] is Text));
        let r = items.drop_first();
        assert forall|j: int| 0 <= j < i - 1 implies !((#[trigger] r[j]) is Text) by {
            assert(r[j] == items[j + 1]);
        }
        lemma_first_text(r, i - 1);
    }
}

/// What an object says of a word is what its entry says: the traditional form, else the word itself;
/// tone, gloss and strokes; the weight; and that it is rare.
pub proof fn law_entries_say_what_objects_say(v: JsonView, word: Seq<char>, x: Seq<char>, n: u64)
    requires
        v is Object,
    ensures
        source::described(v, word).word == word,
        json::member(v, "trad"@) == Some(JsonView::Text(x)) ==> source::described(v, word).trad == x,
        json::member(v, "trad"@) is None ==> source::described(v, word).trad == word,
        json::member(v, "tone"@) == Some(JsonView::Text(x)) ==> source::described(v, word).tone == x,
        json::member(v, "en"@) == Some(JsonView::Text(x)) ==> source::described(v, word).en == x,
        json::member(v, "stroke_aux"@) == Some(JsonView::Text(x)) ==> source::described(
            v,
            word,
        ).stroke_aux == x,
        json::member(v, "weight"@) == Some(JsonView::Number(x, Some(n))) && n <= u32::MAX
            ==> source::described(v, word).weight == n,
        json::member(v, "weight"@) is None ==> source::described(v, word).weight == 0,
        json::member(v, "category"@) == Some(JsonView::Text("level-4"@)) || json::member(
            v,
            "category"@,
        ) == Some(JsonView::Text("level-5"@)) ==> source::described(v, word).flags == 1,
        json::member(v, "category"@) is None ==> source::described(v, word).flags == 0,
{
    reveal_strlit("level-4");
    reveal_strlit("level-5");
    if json::member(v, "category"@) is None {
        assert(source::text_or(v, "category"@, Seq::empty()).len() == 0);
        assert("level-4"@.len() > 0 && "level-5"@.len() > 0);
    }
}

/// A line of a list gives a word, its pinyin without spaces and in small letters, and its weight.
pub proof fn law_lines_are_cut_at_tabs(w: Seq<char>, p: Seq<char>, n: Seq<char>)
    requires
        w.len() > 0,
        !text::is_space(w[0]),
        w[0] != '#',
        !w.contains('\t'),
        !p.contains('\t'),
        !n.contains('\t'),
        n.len() > 0,
        text::all_digits(n),
        text::digits_value(n) <= u32::MAX,
    ensures
        ({
            let line = w + seq!['\t'] + p;
            let e = source::line_entry(line);
            &&& e is Some
            &&& (e->0).0 == text::lowercase(text::without_char(p, ' '))
            &&& (e->0).1.word == w
            &&& (e->0).1.weight == 0
        }),
        ({
            let line = w + seq!['\t'] + (p + seq!['\t'] + n);
            let e = source::line_entry(line);
            &&& e is Some
            &&& (e->0).0 == text::lowercase(text::without_char(p, ' '))
            &&& (e->0).1.word == w
            &&& (e->0).1.weight == text::digits_value(n)
        }),
{
    let t = seq!['\t'];
    assert(t[0] == '\t');
    assert forall|i: int| 0 <= i < w.len() implies !t.contains(#[trigger] w[i]) by {
        assert(w.contains(w[i]));
    }
    assert forall|i: int| 0 <= i < p.len() implies !t.contains(#[trigger] p[i]) by {
        assert(p.contains(p[i]));
    }
    assert forall|i: int| 0 <= i < n.len() implies !t.contains(#[trigger] n[i]) by {
        assert(n.contains(n[i]));
    }
    text::law_fields_are_cut_at_separators(w, '\t', p, t);
    text::law_fields_are_cut_at_separators(p, '\t', n, t);
    text::law_fields_are_cut_at_separators(n, '\t', p, t);
    text::law_fields_are_cut_at_separators(w, '\t', p + t + n, t);
    reveal_strlit("#");
    lemma_not_blank(w + t + p);
    lemma_not_blank(w + t + (p + t + n));
    assert("#"@[0] == '#');
    assert((w + t + p).take(1)[0] == w[0]);
    assert((w + t + (p + t + n)).take(1)[0] == w[0]);
    assert(text::is_digit_char(n[0]));
    lemma_digits_count_up(n);
    let parts = text::fields(w + t + (p + t + n), t);
    assert(parts =~= seq![w, p, n]);
    assert(text::number(parts[2], u32::MAX as int) == Some(text::digits_value(n)));
}

proof fn lemma_digits_count_up(s: Seq<char>)
    requires
        text::all_digits(s),
    ensures
        text::digits_value(s) >= 0,
    decreases s.len(),
{
    if s.len() > 0 {
        assert(text::is_digit_char(s[s.len() - 1]));
        assert forall|i: int| 0 <= i < s.drop_last().len() implies text::is_digit_char(
            #[trigger] s.drop_last()[i],
        ) by {
            assert(s.drop_last()[i] == s[i]);
        }
        lemma_digits_count_up(s.drop_last());
    }
}

proof fn lemma_not_blank(s: Seq<char>)
    requires
        s.len() > 0,
        !text::is_space(s[0]),
    ensures
        text::trimmed(s).len() > 0,
{
    assert(text::trimmed_start(s) == s);
    lemma_kept_end(s);
}

proof fn lemma_kept_end(s: Seq<char>)
    requires
        s.len() > 0,
        !text::is_space(s[0]),
    ensures
        text::trimmed_end(s).len() > 0,
    decreases s.len(),
{
    if text::is_space(s.last()) {
        lemma_kept_end(s.drop_last());
    }
}

/// Nothing of a list is read before the line of dots.
pub proof fn law_lists_begin_behind_the_dots(
    d: Seq<(Seq<char>, Seq<Entry>)>,
    lines: Seq<Seq<char>>,
    n: int,
)
    requires
        0 <= n <= lines.len(),
        forall|i: int| 0 <= i < n - 1 ==> !text::begins(#[trigger] lines[i], "..."@),
    ensures
        source::lines_added(d, lines, n).1 == d,
        n > 0 && text::begins(lines[n - 1], "..."@) ==> source::lines_added(d, lines, n).0,
    decreases n,
{
    if n > 0 {
        lemma_not_begun(d, lines, n - 1);
    }
}

proof fn lemma_not_begun(d: Seq<(Seq<char>, Seq<Entry>)>, lines: Seq<Seq<char>>, n: int)
    requires
        0 <= n <= lines.len(),
        forall|i: int| 0 <= i < n ==> !text::begins(#[trigger] lines[i], "..."@),
    ensures
        source::lines_added(d, lines, n) == (false, d),
    decreases n,
{
    if n > 0 {
        assert(!text::begins(lines[n - 1], "..."@));
        lemma_not_begun(d, lines, n - 1);
    }
}

/// Every line behind the line of dots that gives a word is read, and the word stands under its pinyin.
pub proof fn law_words_of_a_list_are_read(
    d: Seq<(Seq<char>, Seq<Entry>)>,
    lines: Seq<Seq<char>>,
    n: int,
    dots: int,
    i: int,
)
    requires
        0 <= dots < i < n <= lines.len(),
        text::begins(lines[dots], "..."@),
        source::line_entry(lines[i]) is Some,
    ensures
        stands_from(
            source::lines_added(d, lines, n).1,
            (source::line_entry(lines[i])->0).0,
            0,
            (source::line_entry(lines[i])->0).1.word,
        ),
    decreases n,
{
    lemma_begun(d, lines, n - 1, dots);
    let before = source::lines_added(d, lines, n - 1).1;
    let after = source::lines_added(d, lines, n).1;
    if let Some((k, e)) = source::line_entry(lines[n - 1]) {
        law_entries_go_behind_the_others(before, k, e, k);
        if i == n - 1 {
            assert(list_under(after, k)[list_under(before, k).len() as int].word == e.word);
        }
    } else {
        lemma_same(before);
    }
    if i < n - 1 {
        law_words_of_a_list_are_read(d, lines, n - 1, dots, i);
        let x = source::line_entry(lines[i])->0;
        lemma_stays(before, after, x.0, 0, x.1.word);
    }
}

proof fn lemma_begun(d: Seq<(Seq<char>, Seq<Entry>)>, lines: Seq<Seq<char>>, n: int, dots: int)
    requires
        0 <= dots < n <= lines.len(),
        text::begins(lines[dots], "..."@),
    ensures
        source::lines_added(d, lines, n).0,
    decreases n,
{
    if dots < n - 1 {
        lemma_begun(d, lines, n - 1, dots);
    }
}

/// The last line for a syllable says how often it is typed, and nothing else is said of it.
pub proof fn law_last_count_of_a_syllable_holds(lines: Seq<Seq<char>>, n: int, p: Seq<char>, i: int)
    requires
        0 <= n <= lines.len(),
        forall|j: int|
            i < j < n ==> (source::freq_line(#[trigger] lines[j]) is None || (source::freq_line(
                lines[j],
            )->0).0 != p),
    ensures
        0 <= i < n && source::freq_line(lines[i]) is Some && (source::freq_line(lines[i])->0).0 == p ==> {
            &&& source::freqs(lines, n).contains_key(p)
            &&& source::freqs(lines, n)[p] == (source::freq_line(lines[i])->0).1
        },
        i < 0 ==> !source::freqs(lines, n).contains_key(p),
    decreases n,
{
    if n > 0 {
        if i < n - 1 {
            assert(source::freq_line(lines[n - 1]) is None || (source::freq_line(lines[n - 1])->0).0 != p);
            law_last_count_of_a_syllable_holds(lines, n - 1, p, i);
        }
    }
}

/// The marks under a key are those that its items describe, in their order.
pub proof fn law_marks_are_in_order(items: Seq<JsonView>, n: int, i: int, j: int)
    requires
        0 <= i < j < n <= items.len(),
        source::mark_of(items[i]) is Some,
        source::mark_of(items[j]) is Some,
    ensures
        ({
            let l = source::marks_of(items, n);
            exists|a: int, b: int|
                0 <= a < b < l.len() && (#[trigger] l[a]) == source::mark_of(items[i])->0 && (
                #[trigger] l[b]) == source::mark_of(items[j])->0
        }),
    decreases n,
{
    let before = source::marks_of(items, n - 1);
    let l = source::marks_of(items, n);
    if j == n - 1 {
        lemma_mark(items, n - 1, i);
        let a = choose|a: int|
            0 <= a < before.len() && #[trigger] before[a] == source::mark_of(items[i])->0;
        assert(l[a] == before[a]);
        assert(l[before.len() as int] == source::mark_of(items[j])->0);
    } else {
        law_marks_are_in_order(items, n - 1, i, j);
        let (a, b) = choose|a: int, b: int|
            0 <= a < b < before.len() && (#[trigger] before[a]) == source::mark_of(items[i])->0 && (
            #[trigger] before[b]) == source::mark_of(items[j])->0;
        assert(l[a] == before[a] && l[b] == before[b]);
    }
}

proof fn lemma_mark(items: Seq<JsonView>, n: int, i: int)
    requires
        0 <= i < n <= items.len(),
        source::mark_of(items[i]) is Some,
    ensures
        exists|a: int|
            0 <= a < source::marks_of(items, n).len() && #[trigger] source::marks_of(items, n)[a]
                == source::mark_of(items[i])->0,
    decreases n,
{
    let before = source::marks_of(items, n - 1);
    let l = source::marks_of(items, n);
    if i == n - 1 {
        assert(l[before.len() as int] == source::mark_of(items[i])->0);
    } else {
        lemma_mark(items, n - 1, i);
        let a = choose|a: int|
            0 <= a < before.len() && #[trigger] before[a] == source::mark_of(items[i])->0;
        assert(l[a] == before[a]);
    }
}

/// Whether a source was changed a second or more after a time.
pub open spec fn changed_after(files: Seq<SourceFile>, built: i128) -> bool {
    exists|i: int|
        0 <= i < files.len() && changed_since(#[trigger] files[i], built)
}

/// Whether a file is a source that was changed a second or more after a time.
pub open spec fn changed_since(f: SourceFile, built: i128) -> bool {
    &&& f.extension@ == "json"@ || f.extension@ == "yaml"@
    &&& f.mtime is Some
    &&& f.mtime->0 - built >= 1_000_000_000
}

/// A dictionary with a good head is compiled anew where its directory is newer than it and one of its
/// sources was changed a second or more after it was made, and not otherwise. One that is missing is
/// compiled in any case.
pub proof fn law_changed_sources_are_compiled_anew(
    head: Seq<u8>,
    built: i128,
    dir: i128,
    files: Seq<SourceFile>,
)
    requires
        crate::trie::header_error(head) is None,
        built >= 0,
    ensures
        building::outdated(Some((Some(head), built)), Some(dir), files) <==> dir > built
            && changed_after(files, built),
        building::outdated(None, Some(dir), files),
{
    lemma_newest(files, files.len() as int, built);
}

proof fn lemma_newest(files: Seq<SourceFile>, n: int, built: i128)
    requires
        0 <= n <= files.len(),
        built >= 0,
    ensures
        building::newest(files, n) >= 0,
        building::newest(files, n) - built >= 1_000_000_000 <==> (exists|i: int|
            0 <= i < n && changed_since(#[trigger] files[i], built)),
    decreases n,
{
    if n > 0 {
        lemma_newest(files, n - 1, built);
        let f = files[n - 1];
        if changed_since(f, built) {
            assert(building::newest(files, n) - built >= 1_000_000_000);
        }
        if building::newest(files, n) - built >= 1_000_000_000 && building::newest(files, n - 1) - built
            < 1_000_000_000 {
            assert(changed_since(f, built));
        }
    }
}

/// A line of a frequency list gives its syllable in small letters and its count.
pub proof fn law_counts_stand_behind_a_blank(p: Seq<char>, n: Seq<char>)
    requires
        p.len() > 0,
        !p.contains(' '),
        !text::is_space(p[0]),
        n.len() > 0,
        text::all_digits(n),
        text::digits_value(n) <= u64::MAX,
        !text::is_space(n.last()),
    ensures
        source::freq_line(p + seq![' '] + n) is Some,
        (source::freq_line(p + seq![' '] + n)->0).0 == text::lowercase(p),
        (source::freq_line(p + seq![' '] + n)->0).1 == text::digits_value(n),
{
    let line = p + seq![' '] + n;
    assert(line[0] == p[0]);
    assert(line.last() == n.last());
    assert(text::trimmed(line) == line);
    lemma_up_to(p, n, ' ');
    assert(line[p.len() as int] == ' ');
    assert(line.skip(p.len() as int + 1) =~= n);
    lemma_digits_count_up(n);
    assert(text::is_digit_char(n[0]));
}

proof fn lemma_up_to(p: Seq<char>, n: Seq<char>, c: char)
    requires
        !p.contains(c),
    ensures
        text::up_to(p + seq![c] + n, c) == p,
    decreases p.len(),
{
    let s = p + seq![c] + n;
    if p.len() > 0 {
        assert(p.contains(p[0]));
        let d = p.drop_first();
        assert(s.drop_first() =~= d + seq![c] + n);
        if d.contains(c) {
            let i = choose|i: int| 0 <= i < d.len() && d[i] == c;
            assert(p[i + 1] == c);
        }
        lemma_up_to(d, n, c);
        assert(seq![p[0]] + d =~= p);
    } else {
        assert(s[0] == c);
        assert(p =~= Seq::empty());
    }
}

/// The marks for a key are those of the last of its lists.
pub proof fn law_last_marks_of_a_key_hold(m: Seq<(Seq<char>, JsonView)>, n: int, i: int)
    requires
        0 <= i < n <= m.len(),
        m[i].1 is Array,
        forall|j: int| i < j < n ==> (#[trigger] m[j]).0 != m[i].0 || !(m[j].1 is Array),
    ensures
        strmap::lookup(source::mark_lists(m, n), m[i].0) == Some(
            source::marks_of(m[i].1->Array_0, m[i].1->Array_0.len() as int),
        ),
    decreases n,
{
    let before = source::mark_lists(m, n - 1);
    if let JsonView::Array(items) = m[n - 1].1 {
        strmap::law_put_lookup(
            before,
            m[n - 1].0,
            source::marks_of(items, items.len() as int),
            m[i].0,
        );
    }
    if i < n - 1 {
        assert(m[n - 1].0 != m[i].0 || !(m[n - 1].1 is Array));
        law_last_marks_of_a_key_hold(m, n - 1, i);
    }
}

/// Of a directory tables are read but for that of the punctuation, and lists; nothing else is.
pub proof fn law_tables_and_lists_are_read(name: Seq<char>, extension: Seq<char>)
    ensures
        building::reading(name, extension) is Table <==> extension == "json"@ && name
            != "punctuation.json"@,
        building::reading(name, extension) is List <==> extension == "yaml"@,
{
    reveal_strlit("json");
    reveal_strlit("yaml");
    assert("json"@[0] != "yaml"@[0]);
}


} // verus!
