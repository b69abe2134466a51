//! Reading dictionary sources: JSON files, tab-separated lists and the small text tables.

use vstd::prelude::*;
use crate::compiler::{DictEntry, DictSource, EntryList, FLAG_RARE};
use crate::config::{PunctuationEntry, PunctuationList};
use crate::json;
use crate::json::{parse_tree, Json, JsonView};
use crate::strmap;
use crate::strmap::StrMap;
use crate::tables::{FreqTable, WordSet};
use crate::text;
use crate::text::{parse_u64, remove_char, same_text, split_at_any, split_once, starts_with, to_lower, trim};
use crate::trie::Entry;

verus! {

/// A dictionary in the making after an entry was added under a key.
pub open spec fn added(d: Seq<(Seq<char>, Seq<Entry>)>, k: Seq<char>, e: Entry) -> Seq<
    (Seq<char>, Seq<Entry>),
> {
    strmap::put(
        d,
        k,
        (match strmap::lookup(d, k) {
            Some(l) => l,
            None => Seq::empty(),
        }).push(e),
    )
}

/// Adds an entry under a key.
fn add_entry(d: &mut DictSource, k: &str, e: DictEntry)
    ensures
        final(d)@ == added(old(d)@, k@, e@),
{
    let list = d.entry_or(k, EntryList::new());
    list.push(e);
}

/// An entry of which only the word, and a hint, is known.
pub open spec fn plain_entry(word: Seq<char>, en: Seq<char>) -> Entry {
    Entry {
        word,
        trad: word,
        tone: Seq::empty(),
        en,
        stroke_aux: Seq::empty(),
        weight: 0,
        flags: 0,
    }
}

/// The text of a member of an object, where it has one.
pub open spec fn text_member(v: JsonView, k: Seq<char>) -> Option<Seq<char>> {
    match json::member(v, k) {
        Some(JsonView::Text(s)) => Some(s),
        _ => None,
    }
}

/// The text of a member of an object, or a text in its place.
pub open spec fn text_or(v: JsonView, k: Seq<char>, other: Seq<char>) -> Seq<char> {
    match text_member(v, k) {
        Some(s) => s,
        None => other,
    }
}

/// The weight of a source entry: a natural number, of which the low 32 bits count.
pub open spec fn weight_of(v: JsonView) -> u32 {
    match json::member(v, "weight"@) {
        Some(JsonView::Number(_, Some(n))) => (n % 4294967296) as u32,
        _ => 0,
    }
}

/// The entry that an object describes.
pub open spec fn described(v: JsonView, word: Seq<char>) -> Entry {
    let category = text_or(v, "category"@, Seq::empty());
    Entry {
        word,
        trad: text_or(v, "trad"@, word),
        tone: text_or(v, "tone"@, Seq::empty()),
        en: text_or(v, "en"@, Seq::empty()),
        stroke_aux: text_or(v, "stroke_aux"@, Seq::empty()),
        weight: weight_of(v),
        flags: if category == "level-4"@ || category == "level-5"@ {
            FLAG_RARE
        } else {
            0
        },
    }
}

/// A dictionary in the making after one item of a list was read: a word, or an object with a
/// member `char`. With a key field, the object stands under the lower-case text of that field,
/// and is left out where that is empty.
pub open spec fn item_added(
    d: Seq<(Seq<char>, Seq<Entry>)>,
    key: Seq<char>,
    v: JsonView,
    field: Option<Seq<char>>,
) -> Seq<(Seq<char>, Seq<Entry>)> {
    match v {
        JsonView::Text(s) => added(d, key, plain_entry(s, Seq::empty())),
        JsonView::Object(_) => match text_member(v, "char"@) {
            None => d,
            Some(word) => match field {
                None => added(d, key, described(v, word)),
                Some(f) => {
                    let k = text::lowercase(text_or(v, f, Seq::empty()));
                    if k.len() == 0 {
                        d
                    } else {
                        added(d, k, described(v, word))
                    }
                },
            },
        },
        _ => d,
    }
}

/// A dictionary in the making after the first `n` items of a list were read.
pub open spec fn items_added(
    d: Seq<(Seq<char>, Seq<Entry>)>,
    key: Seq<char>,
    items: Seq<JsonView>,
    n: int,
    field: Option<Seq<char>>,
) -> Seq<(Seq<char>, Seq<Entry>)>
    decreases n,
{
    if n <= 0 || n > items.len() {
        d
    } else {
        item_added(items_added(d, key, items, n - 1, field), key, items[n - 1], field)
    }
}

/// The first text of a list, or the empty text.
pub open spec fn first_text(items: Seq<JsonView>) -> Seq<char>
    decreases items.len(),
{
    if items.len() == 0 {
        Seq::empty()
    } else {
        match items[0] {
            JsonView::Text(s) => s,
            _ => first_text(items.drop_first()),
        }
    }
}

/// A dictionary in the making after one member of a source object was read. An English source
/// has the words as keys and their hints as lists.
pub open spec fn member_added(
    d: Seq<(Seq<char>, Seq<Entry>)>,
    key: Seq<char>,
    v: JsonView,
    english: bool,
    field: Option<Seq<char>>,
) -> Seq<(Seq<char>, Seq<Entry>)> {
    match v {
        JsonView::Array(items) => if english {
            added(d, text::lowercase(key), plain_entry(key, first_text(items)))
        } else {
            items_added(d, text::lowercase(key), items, items.len() as int, field)
        },
        _ => d,
    }
}

/// A dictionary in the making after the first `n` members of a source object were read.
pub open spec fn members_added(
    d: Seq<(Seq<char>, Seq<Entry>)>,
    members: Seq<(Seq<char>, JsonView)>,
    n: int,
    english: bool,
    field: Option<Seq<char>>,
) -> Seq<(Seq<char>, Seq<Entry>)>
    decreases n,
{
    if n <= 0 || n > members.len() {
        d
    } else {
        member_added(
            members_added(d, members, n - 1, english, field),
            members[n - 1].0,
            members[n - 1].1,
            english,
            field,
        )
    }
}

/// The text of a member of an object, or a text in its place.
fn get_text_or(v: &Json, k: &str, other: &str) -> (r: String)
    ensures
        r@ == text_or(v@, k@, other@),
{
    match v.get(k) {
        Some(x) => match x.as_str() {
            Some(s) => s.to_owned(),
            None => other.to_owned(),
        },
        None => other.to_owned(),
    }
}

/// The weight of a source entry.
fn get_weight(v: &Json) -> (r: u32)
    ensures
        r == weight_of(v@),
{
    match v.get("weight") {
        Some(Json::Number(_, Some(n))) => (*n % 4294967296) as u32,
        _ => 0,
    }
}

/// The entry that an object describes.
fn describe(v: &Json, word: &str) -> (r: DictEntry)
    ensures
        r@ == described(v@, word@),
{
    proof {
        reveal_strlit("");
        assert(""@ =~= Seq::<char>::empty());
    }
    let category = get_text_or(v, "category", "");
    let rare = same_text(category.as_str(), "level-4") || same_text(category.as_str(), "level-5");
    DictEntry {
        word: word.to_owned(),
        trad: get_text_or(v, "trad", word),
        tone: get_text_or(v, "tone", ""),
        en: get_text_or(v, "en", ""),
        stroke_aux: get_text_or(v, "stroke_aux", ""),
        weight: get_weight(v),
        flags: if rare {
            FLAG_RARE
        } else {
            0
        },
    }
}

/// An entry of which only the word, and a hint, is known.
fn plain(word: &str, en: &str) -> (r: DictEntry)
    ensures
        r@ == plain_entry(word@, en@),
{
    DictEntry {
        word: word.to_owned(),
        trad: word.to_owned(),
        tone: String::new(),
        en: en.to_owned(),
        stroke_aux: String::new(),
        weight: 0,
        flags: 0,
    }
}

/// Reads one item of a list.
fn process_item(d: &mut DictSource, key: &str, v: &Json, field: Option<&str>)
    ensures
        final(d)@ == item_added(old(d)@, key@, v@, crate::trie::opt_text(field)),
{
    proof {
        reveal_strlit("");
        assert(""@ =~= Seq::<char>::empty());
    }
    match v {
        Json::Text(s) => {
            add_entry(d, key, plain(s.as_str(), ""));
        },
        Json::Object(_) => {
            let word = match v.get("char") {
                Some(c) => match c.as_str() {
                    Some(s) => s.to_owned(),
                    None => {
                        return ;
                    },
                },
                None => {
                    return ;
                },
            };
            let e = describe(v, word.as_str());
            match field {
                None => {
                    add_entry(d, key, e);
                },
                Some(f) => {
                    let k = to_lower(get_text_or(v, f, "").as_str());
                    if !k.as_str().is_empty() {
                        add_entry(d, k.as_str(), e);
                    }
                },
            }
        },
        _ => {},
    }
}

/// The first text of a list, or the empty text.
fn find_first_text(items: &Vec<Json>) -> (r: String)
    ensures
        r@ == first_text(items@.map_values(|e: Json| e@)),
{
    let ghost s = items@.map_values(|e: Json| e@);
    let mut i: usize = 0;
    proof {
        assert(s.skip(0) =~= s);
    }
    while i < items.len()
        invariant
            i <= items.len(),
            s == items@.map_values(|e: Json| e@),
            first_text(s) == first_text(s.skip(i as int)),
        decreases items.len() - i,
    {
        proof {
            assert(s.skip(i as int)[0] == items@[i as int]@);
            assert(s.skip(i as int).drop_first() =~= s.skip(i + 1));
        }
        match items[i].as_str() {
            Some(t) => {
                return t.to_owned();
            },
            None => {},
        }
        i = i + 1;
    }
    String::new()
}

/// A dictionary in the making after a JSON source was read. Anything but an object holds
/// nothing.
pub open spec fn tree_added(
    d: Seq<(Seq<char>, Seq<Entry>)>,
    tree: JsonView,
    is_english: bool,
    field: Option<Seq<char>>,
) -> Seq<(Seq<char>, Seq<Entry>)> {
    match tree {
        JsonView::Object(m) => members_added(d, m, m.len() as int, is_english, field),
        _ => d,
    }
}

/// Reads the bytes of a JSON source into a dictionary in the making. It fails on bytes that
/// hold no value, and then adds nothing.
pub fn process_json_file(
    d: &mut DictSource,
    bytes: &[u8],
    is_english: bool,
    key_field: Option<&str>,
) -> (r: bool)
    ensures
        r == (json::tree_in(bytes@) is Some),
        final(d)@ == (match json::tree_in(bytes@) {
            Some(t) => tree_added(old(d)@, t, is_english, crate::trie::opt_text(key_field)),
            None => old(d)@,
        }),
{
    match parse_tree(bytes) {
        Some(value) => {
            process_json(d, &value, is_english, key_field);
            true
        },
        None => false,
    }
}

/// Reads a JSON source into a dictionary in the making. Anything but an object holds nothing.
pub fn process_json(d: &mut DictSource, value: &Json, is_english: bool, key_field: Option<&str>)
    ensures
        final(d)@ == tree_added(
            old(d)@,
            value@,
            is_english,
            crate::trie::opt_text(key_field),
        ),
{
    let ghost start = d@;
    let ghost field = crate::trie::opt_text(key_field);
    match value {
        Json::Object(v) => {
            proof {
                json::lemma_object_tree(*v);
            }
            let ghost m = json::members(v@);
            let mut i: usize = 0;
            while i < v.len()
                invariant
                    i <= v.len(),
                    m == json::members(v@),
                    field == crate::trie::opt_text(key_field),
                    d@ == members_added(start, m, i as int, is_english, field),
                decreases v.len() - i,
            {
                let key = to_lower(v[i].0.as_str());
                proof {
                    assert(m[i as int] == (v@[i as int].0@, v@[i as int].1@));
                }
                match &v[i].1 {
                    Json::Array(items) => {
                        proof {
                            json::lemma_array_tree(*items);
                        }
                        let ghost its = items@.map_values(|e: Json| e@);
                        if is_english {
                            let hint = find_first_text(items);
                            add_entry(d, key.as_str(), plain(v[i].0.as_str(), hint.as_str()));
                        } else {
                            let ghost before = d@;
                            let mut j: usize = 0;
                            while j < items.len()
                                invariant
                                    j <= items.len(),
                                    its == items@.map_values(|e: Json| e@),
                                    field == crate::trie::opt_text(key_field),
                                    d@ == items_added(before, key@, its, j as int, field),
                                decreases items.len() - j,
                            {
                                process_item(d, key.as_str(), &items[j], key_field);
                                j = j + 1;
                            }
                        }
                    },
                    _ => {},
                }
                i = i + 1;
            }
        },
        _ => {},
    }
}


/// The entry of a line of a tab-separated list, and its key: the word, its pinyin without
/// spaces and in lower case, and a weight that counts as zero where it is no number.
pub open spec fn line_entry(line: Seq<char>) -> Option<(Seq<char>, Entry)> {
    let parts = text::fields(line, seq!['\t']);
    if text::begins(line, "#"@) || text::trimmed(line).len() == 0 || parts.len() < 2 {
        None
    } else {
        let weight = if parts.len() >= 3 {
            match text::number(parts[2], u32::MAX as int) {
                Some(n) => n as u32,
                None => 0,
            }
        } else {
            0
        };
        Some(
            (
                text::lowercase(text::without_char(parts[1], ' ')),
                Entry { weight, ..plain_entry(parts[0], Seq::empty()) },
            ),
        )
    }
}

/// What was read of the first `n` lines of a tab-separated list: whether the line of dots
/// that ends its preamble was met, and the dictionary in the making.
pub open spec fn lines_added(
    d: Seq<(Seq<char>, Seq<Entry>)>,
    lines: Seq<Seq<char>>,
    n: int,
) -> (bool, Seq<(Seq<char>, Seq<Entry>)>)
    decreases n,
{
    if n <= 0 || n > lines.len() {
        (false, d)
    } else {
        let (open, done) = lines_added(d, lines, n - 1);
        if !open {
            (text::begins(lines[n - 1], "..."@), done)
        } else {
            match line_entry(lines[n - 1]) {
                Some((k, e)) => (true, added(done, k, e)),
                None => (true, done),
            }
        }
    }
}

/// Reads a line of a tab-separated list.
fn read_line(line: &str) -> (r: Option<(String, DictEntry)>)
    ensures
        r is Some <==> line_entry(line@) is Some,
        r matches Some((k, e)) ==> line_entry(line@) == Some((k@, e@)),
{
    if starts_with(line, "#") || trim(line).as_str().is_empty() {
        return None;
    }
    let seps: [char; 1] = ['\t'];
    proof {
        assert(seps@ =~= seq!['\t']);
    }
    let parts = split_at_any(line, &seps);
    let ghost fs = text::texts(parts@);
    if parts.len() < 2 {
        return None;
    }
    proof {
        reveal_strlit("");
        assert(""@ =~= Seq::<char>::empty());
        assert(fs[0] == parts@[0]@ && fs[1] == parts@[1]@);
    }
    let mut weight: u32 = 0;
    if parts.len() >= 3 {
        proof {
            assert(fs[2] == parts@[2]@);
        }
        match parse_u64(parts[2].as_str()) {
            Some(n) => {
                if n <= u32::MAX as u64 {
                    weight = n as u32;
                }
            },
            None => {},
        }
    }
    let key = to_lower(remove_char(parts[1].as_str(), ' ').as_str());
    let mut e = plain(parts[0].as_str(), "");
    e.weight = weight;
    Some((key, e))
}

/// Reads the lines of a tab-separated list into a dictionary in the making. What stands
/// before the line of dots is its preamble.
pub fn process_yaml(d: &mut DictSource, lines: &Vec<String>)
    ensures
        final(d)@ == lines_added(old(d)@, text::texts(lines@), lines@.len() as int).1,
{
    let ghost start = d@;
    let ghost ls = text::texts(lines@);
    let mut open: bool = false;
    let mut i: usize = 0;
    while i < lines.len()
        invariant
            i <= lines.len(),
            ls == text::texts(lines@),
            (open, d@) == lines_added(start, ls, i as int),
        decreases lines.len() - i,
    {
        let line = lines[i].as_str();
        proof {
            assert(ls[i as int] == line@);
        }
        if !open {
            if starts_with(line, "...") {
                open = true;
            }
        } else {
            match read_line(line) {
                Some((k, e)) => {
                    add_entry(d, k.as_str(), e);
                },
                None => {},
            }
        }
        i = i + 1;
    }
}

/// The syllable and its count on a line of a frequency list.
pub open spec fn freq_line(line: Seq<char>) -> Option<(Seq<char>, u64)> {
    match text::cut_once(text::trimmed(line), ' ') {
        None => None,
        Some((p, c)) => match text::number(c, u64::MAX as int) {
            None => None,
            Some(n) => Some((text::lowercase(p), n as u64)),
        },
    }
}

/// The frequencies on the first `n` lines of a list; a later line overrides an earlier one.
pub open spec fn freqs(lines: Seq<Seq<char>>, n: int) -> Map<Seq<char>, u64>
    decreases n,
{
    if n <= 0 || n > lines.len() {
        Map::empty()
    } else {
        match freq_line(lines[n - 1]) {
            Some((p, c)) => freqs(lines, n - 1).insert(p, c),
            None => freqs(lines, n - 1),
        }
    }
}

/// Reads the lines of a frequency list.
pub fn load_syllable_frequencies(lines: &Vec<String>) -> (r: FreqTable)
    ensures
        r@ == freqs(text::texts(lines@), lines@.len() as int),
{
    let ghost ls = text::texts(lines@);
    let mut t = FreqTable::new();
    let mut i: usize = 0;
    while i < lines.len()
        invariant
            i <= lines.len(),
            ls == text::texts(lines@),
            t@ == freqs(ls, i as int),
        decreases lines.len() - i,
    {
        proof {
            assert(ls[i as int] == lines@[i as int]@);
        }
        let line = trim(lines[i].as_str());
        match split_once(line.as_str(), ' ') {
            Some((p, c)) => {
                match parse_u64(c.as_str()) {
                    Some(n) => {
                        t.insert(to_lower(p.as_str()), n);
                    },
                    None => {},
                }
            },
            None => {},
        }
        i = i + 1;
    }
    t
}

/// The syllables on the lines of a list: lower case, without the white space around them.
pub open spec fn is_listed(lines: Seq<Seq<char>>, n: int, w: Seq<char>) -> bool {
    w.len() > 0 && exists|i: int|
        0 <= i < n && text::lowercase(text::trimmed(#[trigger] lines[i])) == w
}

/// Whether one of the first `n` sources has a syllable for a key.
pub open spec fn some_keyed(sources: Seq<Vec<u8>>, n: int, w: Seq<char>) -> bool {
    exists|i: int| 0 <= i < n && tree_keyed(json::tree_in((#[trigger] sources[i])@), w)
}

/// Whether a source has a syllable for a key. One that holds no object has none.
pub open spec fn tree_keyed(tree: Option<JsonView>, w: Seq<char>) -> bool {
    tree matches Some(JsonView::Object(m)) && keyed(m, m.len() as int, w)
}

/// The single syllables: those of the lines of a list, or where it has none the keys of the
/// sources.
pub fn load_single_syllables(lines: &Vec<String>, sources: &Vec<Vec<u8>>) -> (r: WordSet)
    ensures
        forall|w: Seq<char>| #[trigger]
            r@.contains(w) <==> if exists|x: Seq<char>|
                is_listed(text::texts(lines@), lines@.len() as int, x) {
                is_listed(text::texts(lines@), lines@.len() as int, w)
            } else {
                some_keyed(sources@, sources@.len() as int, w)
            },
{
    let mut set = listed_syllables(lines);
    let ghost ls = text::texts(lines@);
    if !set.is_empty() {
        proof {
            let x = choose|x: Seq<char>| set@.contains(x);
            assert(is_listed(ls, lines@.len() as int, x));
        }
        return set;
    }
    proof {
        assert forall|x: Seq<char>| !is_listed(ls, lines@.len() as int, x) by {
            assert(!set@.contains(x));
        }
    }
    let mut i: usize = 0;
    while i < sources.len()
        invariant
            i <= sources.len(),
            forall|w: Seq<char>| #[trigger] set@.contains(w) <==> some_keyed(sources@, i as int, w),
        decreases sources.len() - i,
    {
        let ghost was = set@;
        let ghost tree = json::tree_in(sources@[i as int]@);
        if let Some(value) = parse_tree(sources[i].as_slice()) {
            add_syllable_keys(&mut set, &value);
        }
        proof {
            assert forall|w: Seq<char>| #[trigger]
                set@.contains(w) <==> some_keyed(sources@, i + 1, w) by {
                assert(set@.contains(w) <==> was.contains(w) || tree_keyed(tree, w));
                assert(was.contains(w) <==> some_keyed(sources@, i as int, w));
                if tree_keyed(tree, w) {
                    assert(tree_keyed(json::tree_in(sources@[i as int]@), w));
                }
            }
        }
        i = i + 1;
    }
    set
}

/// Reads the lines of a syllable list.
pub fn listed_syllables(lines: &Vec<String>) -> (r: WordSet)
    ensures
        forall|w: Seq<char>|
            r@.contains(w) <==> is_listed(text::texts(lines@), lines@.len() as int, w),
{
    let ghost ls = text::texts(lines@);
    let mut set = WordSet::new();
    let mut i: usize = 0;
    while i < lines.len()
        invariant
            i <= lines.len(),
            ls == text::texts(lines@),
            forall|w: Seq<char>| set@.contains(w) <==> is_listed(ls, i as int, w),
        decreases lines.len() - i,
    {
        let s = to_lower(trim(lines[i].as_str()).as_str());
        proof {
            assert(ls[i as int] == lines@[i as int]@);
            assert forall|w: Seq<char>| is_listed(ls, i + 1, w) <==> is_listed(ls, i as int, w) || (w
                == s@ && w.len() > 0) by {
                if w == s@ && w.len() > 0 {
                    assert(text::lowercase(text::trimmed(ls[i as int])) == w);
                }
            }
        }
        if !s.as_str().is_empty() {
            set.insert(s);
        }
        i = i + 1;
    }
    set
}

/// The punctuation mark that an item describes.
pub open spec fn mark_of(v: JsonView) -> Option<(Seq<char>, Seq<char>)> {
    match text_member(v, "char"@) {
        Some(c) => Some((c, text_or(v, "desc"@, Seq::empty()))),
        None => None,
    }
}

/// The punctuation marks that the first `n` items describe.
pub open spec fn marks_of(items: Seq<JsonView>, n: int) -> Seq<(Seq<char>, Seq<char>)>
    decreases n,
{
    if n <= 0 {
        Seq::empty()
    } else {
        let before = marks_of(items, n - 1);
        match mark_of(items[n - 1]) {
            Some(m) => before.push(m),
            None => before,
        }
    }
}

/// The punctuation marks under the first `n` members that are lists.
pub open spec fn mark_lists(m: Seq<(Seq<char>, JsonView)>, n: int) -> Seq<
    (Seq<char>, Seq<(Seq<char>, Seq<char>)>),
>
    decreases n,
{
    if n <= 0 {
        Seq::empty()
    } else {
        let before = mark_lists(m, n - 1);
        match m[n - 1].1 {
            JsonView::Array(items) => strmap::put(
                before,
                m[n - 1].0,
                marks_of(items, items.len() as int),
            ),
            _ => before,
        }
    }
}

/// The punctuation marks of a list.
fn read_marks(items: &Vec<Json>) -> (r: PunctuationList)
    ensures
        r@ == marks_of(items@.map_values(|e: Json| e@), items@.len() as int),
{
    let ghost s = items@.map_values(|e: Json| e@);
    let mut out: Vec<PunctuationEntry> = Vec::new();
    let mut i: usize = 0;
    let ghost g = |e: PunctuationEntry| (e.char@, e.desc@);
    proof {
        assert(out@.map_values(g) =~= Seq::<(Seq<char>, Seq<char>)>::empty());
    }
    while i < items.len()
        invariant
            i <= items.len(),
            s == items@.map_values(|e: Json| e@),
            g == (|e: PunctuationEntry| (e.char@, e.desc@)),
            out@.map_values(g) == marks_of(s, i as int),
        decreases items.len() - i,
    {
        let ghost was = out@.map_values(g);
        proof {
            assert(s[i as int] == items@[i as int]@);
        }
        if let Some(x) = items[i].get("char") {
            if let Some(c) = x.as_str() {
                let none = String::new();
                proof {
                    assert(none@ =~= Seq::<char>::empty());
                }
                let e = PunctuationEntry {
                    char: c.to_owned(),
                    desc: get_text_or(&items[i], "desc", none.as_str()),
                };
                out.push(e);
                proof {
                    assert(out@.map_values(g) =~= was.push((e.char@, e.desc@)));
                }
            }
        }
        i = i + 1;
    }
    let r = PunctuationList { items: out };
    proof {
        assert(r@ =~= out@.map_values(g));
    }
    r
}

/// Reads the punctuation marks of keys out of bytes. Anything but an object holds none.
pub fn load_punctuation_dict(bytes: &[u8]) -> (r: StrMap<PunctuationList>)
    ensures
        r@ == (match json::tree_in(bytes@) {
            Some(JsonView::Object(m)) => mark_lists(m, m.len() as int),
            _ => Seq::empty(),
        }),
{
    match parse_tree(bytes) {
        Some(value) => punctuation_of(&value),
        None => {
            let none: StrMap<PunctuationList> = StrMap::new();
            none
        },
    }
}

/// Reads the punctuation marks of keys. Anything but an object holds none.
pub fn punctuation_of(value: &Json) -> (r: StrMap<PunctuationList>)
    ensures
        r@ == (match value@ {
            JsonView::Object(m) => mark_lists(m, m.len() as int),
            _ => Seq::empty(),
        }),
{
    let mut out: StrMap<PunctuationList> = StrMap::new();
    if let Json::Object(v) = value {
        proof {
            json::lemma_object_tree(*v);
        }
        let ghost m = json::members(v@);
        let mut i: usize = 0;
        while i < v.len()
            invariant
                i <= v.len(),
                m == json::members(v@),
                out@ == mark_lists(m, i as int),
            decreases v.len() - i,
        {
            proof {
                assert(m[i as int] == (v@[i as int].0@, v@[i as int].1@));
            }
            if let Json::Array(items) = &v[i].1 {
                proof {
                    json::lemma_array_tree(*items);
                }
                out.insert(v[i].0.clone(), read_marks(items));
            }
            i = i + 1;
        }
    }
    out
}

/// Whether an item of one of the first `n` lists of an object names a character.
pub open spec fn names_char(m: Seq<(Seq<char>, JsonView)>, n: int, w: Seq<char>) -> bool {
    exists|i: int|
        0 <= i < n && #[trigger] m[i].1 is Array && lists_char(
            m[i].1->Array_0,
            m[i].1->Array_0.len() as int,
            w,
        )
}

/// Whether one of the first `n` items of a list names a character.
pub open spec fn lists_char(items: Seq<JsonView>, n: int, w: Seq<char>) -> bool {
    exists|j: int| 0 <= j < n && text_member(#[trigger] items[j], "char"@) == Some(w)
}

/// Adds the characters that the items of a list name.
fn add_chars(set: &mut WordSet, items: &Vec<Json>)
    ensures
        forall|w: Seq<char>| #[trigger]
            final(set)@.contains(w) <==> old(set)@.contains(w) || lists_char(
                items@.map_values(|e: Json| e@),
                items@.len() as int,
                w,
            ),
{
    let ghost s = items@.map_values(|e: Json| e@);
    let ghost start = set@;
    let mut j: usize = 0;
    while j < items.len()
        invariant
            j <= items.len(),
            s == items@.map_values(|e: Json| e@),
            forall|w: Seq<char>| #[trigger]
                set@.contains(w) <==> start.contains(w) || lists_char(s, j as int, w),
        decreases items.len() - j,
    {
        let ghost was = set@;
        proof {
            assert(s[j as int] == items@[j as int]@);
        }
        let named = match items[j].get("char") {
            Some(x) => x.as_str(),
            None => None,
        };
        if let Some(c) = named {
            let _ = set.insert(c.to_owned());
        }
        proof {
            assert forall|w: Seq<char>| #[trigger]
                set@.contains(w) <==> start.contains(w) || lists_char(s, j + 1, w) by {
                assert(was.contains(w) <==> start.contains(w) || lists_char(s, j as int, w));
                if text_member(s[j as int], "char"@) == Some(w) {
                    assert(lists_char(s, j + 1, w));
                }
                if lists_char(s, j as int, w) {
                    assert(lists_char(s, j + 1, w));
                }
                if lists_char(s, j + 1, w) {
                    let i = choose|i: int|
                        0 <= i < j + 1 && text_member(#[trigger] s[i], "char"@) == Some(w);
                    if i < j {
                        assert(lists_char(s, j as int, w));
                    }
                }
            }
        }
        j = j + 1;
    }
}

/// Whether a source names a character. One that holds no object names none.
pub open spec fn tree_names(tree: Option<JsonView>, w: Seq<char>) -> bool {
    tree matches Some(JsonView::Object(m)) && names_char(m, m.len() as int, w)
}

/// Whether one of the first `n` sources names a character.
pub open spec fn some_names(sources: Seq<Vec<u8>>, n: int, w: Seq<char>) -> bool {
    exists|i: int| 0 <= i < n && tree_names(json::tree_in((#[trigger] sources[i])@), w)
}

/// The rare characters: those that the sources name.
pub fn load_rare_chars(sources: &Vec<Vec<u8>>) -> (r: WordSet)
    ensures
        forall|w: Seq<char>| #[trigger]
            r@.contains(w) <==> some_names(sources@, sources@.len() as int, w),
{
    let mut set = WordSet::new();
    let mut i: usize = 0;
    while i < sources.len()
        invariant
            i <= sources.len(),
            forall|w: Seq<char>| #[trigger] set@.contains(w) <==> some_names(sources@, i as int, w),
        decreases sources.len() - i,
    {
        let ghost was = set@;
        let ghost tree = json::tree_in(sources@[i as int]@);
        if let Some(value) = parse_tree(sources[i].as_slice()) {
            add_rare_chars(&mut set, &value);
        }
        proof {
            assert forall|w: Seq<char>| #[trigger]
                set@.contains(w) <==> some_names(sources@, i + 1, w) by {
                assert(set@.contains(w) <==> was.contains(w) || tree_names(tree, w));
                assert(was.contains(w) <==> some_names(sources@, i as int, w));
                if tree_names(tree, w) {
                    assert(tree_names(json::tree_in(sources@[i as int]@), w));
                }
            }
        }
        i = i + 1;
    }
    set
}

/// Adds the rare characters that a source names.
pub fn add_rare_chars(set: &mut WordSet, value: &Json)
    ensures
        forall|w: Seq<char>| #[trigger]
            final(set)@.contains(w) <==> old(set)@.contains(w) || (value@ is Object && names_char(
                value@->Object_0,
                value@->Object_0.len() as int,
                w,
            )),
{
    let ghost start = set@;
    if let Json::Object(v) = value {
        proof {
            json::lemma_object_tree(*v);
        }
        let ghost m = json::members(v@);
        let mut i: usize = 0;
        while i < v.len()
            invariant
                i <= v.len(),
                m == json::members(v@),
                forall|w: Seq<char>| #[trigger]
                    set@.contains(w) <==> start.contains(w) || names_char(m, i as int, w),
            decreases v.len() - i,
        {
            let ghost was = set@;
            proof {
                assert(m[i as int] == (v@[i as int].0@, v@[i as int].1@));
            }
            if let Json::Array(items) = &v[i].1 {
                proof {
                    json::lemma_array_tree(*items);
                }
                add_chars(set, items);
            }
            proof {
                assert forall|w: Seq<char>| #[trigger]
                    set@.contains(w) <==> start.contains(w) || names_char(m, i + 1, w) by {
                    assert(was.contains(w) <==> start.contains(w) || names_char(m, i as int, w));
                    let x = m[i as int].1;
                    if x is Array && lists_char(x->Array_0, x->Array_0.len() as int, w) {
                        assert(names_char(m, i + 1, w));
                    }
                    if names_char(m, i + 1, w) {
                        let k = choose|k: int|
                            0 <= k < i + 1 && #[trigger] m[k].1 is Array && lists_char(
                                m[k].1->Array_0,
                                m[k].1->Array_0.len() as int,
                                w,
                            );
                        if k < i {
                            assert(names_char(m, i as int, w));
                        }
                    }
                    if names_char(m, i as int, w) {
                        let k = choose|k: int|
                            0 <= k < i && #[trigger] m[k].1 is Array && lists_char(
                                m[k].1->Array_0,
                                m[k].1->Array_0.len() as int,
                                w,
                            );
                        assert(names_char(m, i + 1, w));
                    }
                }
            }
            i = i + 1;
        }
    }
}

/// Whether one of the first `n` members is under a key that is a syllable in small letters.
pub open spec fn keyed(m: Seq<(Seq<char>, JsonView)>, n: int, w: Seq<char>) -> bool {
    exists|i: int| 0 <= i < n && text::lowercase((#[trigger] m[i]).0) == w
}

/// Adds the syllables that are keys of a source.
pub fn add_syllable_keys(set: &mut WordSet, value: &Json)
    ensures
        forall|w: Seq<char>| #[trigger]
            final(set)@.contains(w) <==> old(set)@.contains(w) || (value@ is Object && keyed(
                value@->Object_0,
                value@->Object_0.len() as int,
                w,
            )),
{
    let ghost start = set@;
    if let Json::Object(v) = value {
        proof {
            json::lemma_object_tree(*v);
        }
        let ghost m = json::members(v@);
        let mut i: usize = 0;
        while i < v.len()
            invariant
                i <= v.len(),
                m == json::members(v@),
                forall|w: Seq<char>| #[trigger]
                    set@.contains(w) <==> start.contains(w) || keyed(m, i as int, w),
            decreases v.len() - i,
        {
            let ghost was = set@;
            proof {
                assert(m[i as int] == (v@[i as int].0@, v@[i as int].1@));
            }
            let k = to_lower(v[i].0.as_str());
            let ghost key = k@;
            let _ = set.insert(k);
            proof {
                assert forall|w: Seq<char>| #[trigger]
                    set@.contains(w) <==> start.contains(w) || keyed(m, i + 1, w) by {
                    assert(was.contains(w) <==> start.contains(w) || keyed(m, i as int, w));
                    if w == key {
                        assert(text::lowercase(m[i as int].0) == w);
                        assert(keyed(m, i + 1, w));
                    }
                    if keyed(m, i as int, w) {
                        assert(keyed(m, i + 1, w));
                    }
                    if keyed(m, i + 1, w) && w != key {
                        let j = choose|j: int|
                            0 <= j < i + 1 && text::lowercase((#[trigger] m[j]).0) == w;
                        assert(j < i);
                        assert(keyed(m, i as int, w));
                    }
                }
            }
            i = i + 1;
        }
    }
}

} // verus!
