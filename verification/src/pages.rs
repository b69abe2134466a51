//! The pages on which the settings are kept: how they are taken apart, and put together again.

use vstd::prelude::*;
use crate::json;
use crate::json::{deep_merge, pick_keys, remove_keys, Json, JsonView};
use crate::strmap;
use crate::strmap::StrMap;

verus! {

/// What a page holds: members of the settings, and members of those for typing and for the
/// appearance.
pub struct PageKeys {
    pub top: Seq<Seq<char>>,
    pub input: Seq<Seq<char>>,
    pub appearance: Seq<Seq<char>>,
}

/// The page of the system.
pub open spec fn system_keys() -> PageKeys {
    PageKeys {
        top: seq!["files"@, "linux"@],
        input: seq!["autostart"@, "enabled_profiles"@, "phantom_type"@],
        appearance: seq!["show_candidates"@, "show_tray"@],
    }
}

/// The page of fuzzy sounds.
pub open spec fn fuzzy_keys() -> PageKeys {
    PageKeys {
        top: Seq::empty(),
        input: seq!["enable_fuzzy_pinyin"@, "fuzzy_config"@],
        appearance: Seq::empty(),
    }
}

/// The page of double pinyin.
pub open spec fn double_pinyin_keys() -> PageKeys {
    PageKeys {
        top: Seq::empty(),
        input: seq!["enable_double_pinyin"@, "double_pinyin_scheme"@],
        appearance: Seq::empty(),
    }
}

/// The page of punctuation marks.
pub open spec fn punctuation_keys() -> PageKeys {
    PageKeys {
        top: seq!["punctuations"@],
        input: seq!["enable_punctuation_long_press"@, "punctuation_long_press_mappings"@],
        appearance: Seq::empty(),
    }
}

/// The members of a value that may be an object.
pub open spec fn members_of(v: JsonView) -> Seq<(Seq<char>, JsonView)> {
    match v {
        JsonView::Object(m) => m,
        _ => Seq::empty(),
    }
}

/// A page with the given members of a part of the settings, where there are any.
pub open spec fn with_part(
    page: Seq<(Seq<char>, JsonView)>,
    full: JsonView,
    part: Seq<char>,
    keys: Seq<Seq<char>>,
) -> Seq<(Seq<char>, JsonView)> {
    match json::member(full, part) {
        Some(v) => if keys.len() > 0 && json::pick(v, keys) != JsonView::Object(Seq::empty()) {
            strmap::put(page, part, json::pick(v, keys))
        } else {
            page
        },
        None => page,
    }
}

/// A page of the settings.
pub open spec fn page_of(full: JsonView, k: PageKeys) -> JsonView {
    let top = json::picked(members_of(full), k.top, k.top.len());
    JsonView::Object(
        with_part(with_part(top, full, "input"@, k.input), full, "appearance"@, k.appearance),
    )
}

/// The members for typing that have a page of their own.
pub open spec fn placed_input() -> Seq<Seq<char>> {
    seq![
        "autostart"@,
        "enabled_profiles"@,
        "phantom_type"@,
        "enable_fuzzy_pinyin"@,
        "fuzzy_config"@,
        "enable_double_pinyin"@,
        "double_pinyin_scheme"@,
        "enable_punctuation_long_press"@,
        "punctuation_long_press_mappings"@,
    ]
}

/// The members for the appearance that have a page of their own.
pub open spec fn placed_appearance() -> Seq<Seq<char>> {
    seq!["show_candidates"@, "show_tray"@]
}

/// A page with a part of the settings but for the given members, where there is such a part.
pub open spec fn with_rest(
    page: Seq<(Seq<char>, JsonView)>,
    full: JsonView,
    part: Seq<char>,
    keys: Seq<Seq<char>>,
) -> Seq<(Seq<char>, JsonView)> {
    match json::member(full, part) {
        Some(v) => strmap::put(page, part, json::without(v, keys)),
        None => page,
    }
}

/// The page of typing: the keys of the commands, and what has no page of its own.
pub open spec fn typing_page(full: JsonView) -> JsonView {
    let keys = json::picked(members_of(full), seq!["hotkeys"@], 1);
    JsonView::Object(with_rest(keys, full, "input"@, placed_input()))
}

/// The page of the appearance: what has no page of its own.
pub open spec fn appearance_page(full: JsonView) -> JsonView {
    JsonView::Object(with_rest(Seq::empty(), full, "appearance"@, placed_appearance()))
}

/// The page of the quick finals.
pub open spec fn quick_finals_page(full: JsonView) -> JsonView {
    JsonView::Object(
        json::picked(members_of(full), seq!["enable_quick_finals"@, "quick_finals"@], 2),
    )
}

/// The page of the layouts.
pub open spec fn layout_page(full: JsonView) -> JsonView {
    JsonView::Object(json::picked(members_of(full), seq!["layouts"@], 1))
}

/// All pages, with their names.
pub open spec fn all_pages(full: JsonView) -> Seq<(Seq<char>, JsonView)> {
    seq![
        ("system"@, page_of(full, system_keys())),
        ("fuzzy"@, page_of(full, fuzzy_keys())),
        ("doublepinyin"@, page_of(full, double_pinyin_keys())),
        ("punctuation"@, page_of(full, punctuation_keys())),
        ("pinyin"@, typing_page(full)),
        ("appearance"@, appearance_page(full)),
        ("quickfinals"@, quick_finals_page(full)),
        ("layout"@, layout_page(full)),
    ]
}

/// The given members of a value that may be an object.
fn pick_members(full: &Json, keys: &[&str]) -> (r: StrMap<Json>)
    ensures
        r@ == json::picked(members_of(full@), json::key_texts(keys@), keys@.len()),
{
    match pick_keys(full, keys) {
        Json::Object(v) => {
            proof {
                json::lemma_object_tree(v);
            }
            let r = StrMap { entries: v };
            proof {
                assert(r@ =~= json::members(v@));
            }
            r
        },
        _ => {
            let r: StrMap<Json> = StrMap::new();
            proof {
                lemma_nothing_picked(json::key_texts(keys@), keys@.len());
            }
            r
        },
    }
}

proof fn lemma_nothing_picked(keys: Seq<Seq<char>>, n: nat)
    ensures
        json::picked(Seq::empty(), keys, n) == Seq::<(Seq<char>, JsonView)>::empty(),
    decreases n,
{
    if n > 0 && n <= keys.len() {
        lemma_nothing_picked(keys, (n - 1) as nat);
        strmap::lemma_absent(Seq::<(Seq<char>, JsonView)>::empty(), keys[n - 1]);
    }
}

/// Whether a value is an object without members.
fn is_empty_object(v: &Json) -> (r: bool)
    ensures
        r == (v@ == JsonView::Object(Seq::empty())),
{
    match v {
        Json::Object(m) => {
            proof {
                json::lemma_object_tree(*m);
                if m@.len() == 0 {
                    assert(json::members(m@) =~= Seq::empty());
                } else {
                    assert(json::members(m@).len() > 0);
                }
            }
            m.len() == 0
        },
        _ => false,
    }
}

/// Puts the given members of a part of the settings on a page.
fn put_part(page: &mut StrMap<Json>, full: &Json, part: &str, keys: &[&str])
    ensures
        final(page)@ == with_part(old(page)@, full@, part@, json::key_texts(keys@)),
{
    if keys.len() == 0 {
        return ;
    }
    if let Some(v) = full.get(part) {
        let picked = pick_keys(v, keys);
        if !is_empty_object(&picked) {
            page.insert(part.to_owned(), picked);
        }
    }
}

/// Puts a part of the settings on a page, but for the given members.
fn put_rest(page: &mut StrMap<Json>, full: &Json, part: &str, keys: &[&str])
    ensures
        final(page)@ == with_rest(old(page)@, full@, part@, json::key_texts(keys@)),
{
    if let Some(v) = full.get(part) {
        let rest = remove_keys(v.copy(), keys);
        page.insert(part.to_owned(), rest);
    }
}

/// An object with members.
fn object(m: StrMap<Json>) -> (r: Json)
    ensures
        r@ == JsonView::Object(m@),
{
    let v = m.entries;
    proof {
        json::lemma_object_tree(v);
        assert(json::members(v@) =~= m@);
    }
    Json::Object(v)
}

/// A page of the settings.
fn make_page(full: &Json, top: &[&str], input: &[&str], appearance: &[&str]) -> (r: Json)
    ensures
        r@ == page_of(
            full@,
            PageKeys {
                top: json::key_texts(top@),
                input: json::key_texts(input@),
                appearance: json::key_texts(appearance@),
            },
        ),
{
    let mut page = pick_members(full, top);
    put_part(&mut page, full, "input", input);
    put_part(&mut page, full, "appearance", appearance);
    object(page)
}

/// The page of the system.
fn make_system(full: &Json) -> (r: Json)
    ensures
        r@ == page_of(full@, system_keys()),
{
    let top = ["files", "linux"];
    let input = ["autostart", "enabled_profiles", "phantom_type"];
    let appearance = ["show_candidates", "show_tray"];
    proof {
        let k = system_keys();
        assert(json::key_texts(top@) =~= k.top);
        assert(json::key_texts(input@) =~= k.input);
        assert(json::key_texts(appearance@) =~= k.appearance);
    }
    make_page(full, top.as_slice(), input.as_slice(), appearance.as_slice())
}

/// The page of fuzzy sounds.
fn make_fuzzy(full: &Json) -> (r: Json)
    ensures
        r@ == page_of(full@, fuzzy_keys()),
{
    let none: [&str; 0] = [];
    let input = ["enable_fuzzy_pinyin", "fuzzy_config"];
    proof {
        let k = fuzzy_keys();
        assert(json::key_texts(none@) =~= k.top);
        assert(json::key_texts(input@) =~= k.input);
        assert(json::key_texts(none@) =~= k.appearance);
    }
    make_page(full, none.as_slice(), input.as_slice(), none.as_slice())
}

/// The page of double pinyin.
fn make_double_pinyin(full: &Json) -> (r: Json)
    ensures
        r@ == page_of(full@, double_pinyin_keys()),
{
    let none: [&str; 0] = [];
    let input = ["enable_double_pinyin", "double_pinyin_scheme"];
    proof {
        let k = double_pinyin_keys();
        assert(json::key_texts(none@) =~= k.top);
        assert(json::key_texts(input@) =~= k.input);
        assert(json::key_texts(none@) =~= k.appearance);
    }
    make_page(full, none.as_slice(), input.as_slice(), none.as_slice())
}

/// The page of punctuation marks.
fn make_punctuation(full: &Json) -> (r: Json)
    ensures
        r@ == page_of(full@, punctuation_keys()),
{
    let none: [&str; 0] = [];
    let top = ["punctuations"];
    let input = ["enable_punctuation_long_press", "punctuation_long_press_mappings"];
    proof {
        let k = punctuation_keys();
        assert(json::key_texts(top@) =~= k.top);
        assert(json::key_texts(input@) =~= k.input);
        assert(json::key_texts(none@) =~= k.appearance);
    }
    make_page(full, top.as_slice(), input.as_slice(), none.as_slice())
}

/// The page of typing.
fn make_typing(full: &Json) -> (r: Json)
    ensures
        r@ == typing_page(full@),
{
    let top = ["hotkeys"];
    let placed = [
        "autostart",
        "enabled_profiles",
        "phantom_type",
        "enable_fuzzy_pinyin",
        "fuzzy_config",
        "enable_double_pinyin",
        "double_pinyin_scheme",
        "enable_punctuation_long_press",
        "punctuation_long_press_mappings",
    ];
    proof {
        assert(json::key_texts(top@) =~= seq!["hotkeys"@]);
        assert(json::key_texts(placed@) =~= placed_input());
    }
    let mut page = pick_members(full, top.as_slice());
    put_rest(&mut page, full, "input", placed.as_slice());
    object(page)
}

/// The page of the appearance.
fn make_appearance(full: &Json) -> (r: Json)
    ensures
        r@ == appearance_page(full@),
{
    let placed = ["show_candidates", "show_tray"];
    proof {
        assert(json::key_texts(placed@) =~= placed_appearance());
    }
    let mut page: StrMap<Json> = StrMap::new();
    put_rest(&mut page, full, "appearance", placed.as_slice());
    object(page)
}

/// The page of the quick finals.
fn make_quick_finals(full: &Json) -> (r: Json)
    ensures
        r@ == quick_finals_page(full@),
{
    let top = ["enable_quick_finals", "quick_finals"];
    proof {
        assert(json::key_texts(top@) =~= seq!["enable_quick_finals"@, "quick_finals"@]);
    }
    object(pick_members(full, top.as_slice()))
}

/// The page of the layouts.
fn make_layout(full: &Json) -> (r: Json)
    ensures
        r@ == layout_page(full@),
{
    let top = ["layouts"];
    proof {
        assert(json::key_texts(top@) =~= seq!["layouts"@]);
    }
    object(pick_members(full, top.as_slice()))
}

/// Takes the settings apart into pages.
pub fn split_pages(full: &Json) -> (r: StrMap<Json>)
    ensures
        r@ == all_pages(full@),
{
    let mut v: Vec<(String, Json)> = Vec::new();
    v.push(("system".to_owned(), make_system(full)));
    v.push(("fuzzy".to_owned(), make_fuzzy(full)));
    v.push(("doublepinyin".to_owned(), make_double_pinyin(full)));
    v.push(("punctuation".to_owned(), make_punctuation(full)));
    v.push(("pinyin".to_owned(), make_typing(full)));
    v.push(("appearance".to_owned(), make_appearance(full)));
    v.push(("quickfinals".to_owned(), make_quick_finals(full)));
    v.push(("layout".to_owned(), make_layout(full)));
    let r = StrMap { entries: v };
    proof {
        assert(r@ =~= all_pages(full@));
    }
    r
}

/// Settings with the first `n` pages laid over them.
pub open spec fn laid_over(base: JsonView, pages: Seq<JsonView>, n: int) -> JsonView
    decreases n,
{
    if n <= 0 {
        base
    } else {
        json::merge(laid_over(base, pages, n - 1), pages[n - 1])
    }
}

/// The views of pages.
pub open spec fn page_views(v: Seq<Json>) -> Seq<JsonView> {
    v.map_values(|p: Json| p@)
}

/// Lays pages over the settings at the start.
pub fn merge_pages(base: Json, pages: &Vec<Json>) -> (r: Json)
    ensures
        r@ == laid_over(base@, page_views(pages@), pages@.len() as int),
{
    let ghost b = base@;
    let ghost ps = page_views(pages@);
    let mut out = base;
    let mut i: usize = 0;
    while i < pages.len()
        invariant
            i <= pages.len(),
            ps == page_views(pages@),
            out@ == laid_over(b, ps, i as int),
        decreases pages.len() - i,
    {
        proof {
            assert(ps[i as int] == pages@[i as int]@);
        }
        out = deep_merge(out, pages[i].copy());
        i = i + 1;
    }
    out
}

/// Takes the quick finals of their page into the settings.
pub fn take_quick_finals(settings: Json, enabled: bool, finals: Json) -> (r: Json)
    ensures
        r@ == (match settings@ {
            JsonView::Object(m) => JsonView::Object(
                strmap::put(
                    strmap::put(m, "enable_quick_finals"@, JsonView::Bool(enabled)),
                    "quick_finals"@,
                    finals@,
                ),
            ),
            v => v,
        }),
{
    match settings {
        Json::Object(v) => {
            proof {
                json::lemma_object_tree(v);
            }
            let ghost m0 = json::members(v@);
            let mut m = StrMap { entries: v };
            proof {
                assert(m@ =~= m0);
            }
            m.insert("enable_quick_finals".to_owned(), Json::Bool(enabled));
            m.insert("quick_finals".to_owned(), finals);
            object(m)
        },
        other => other,
    }
}

proof fn lemma_picked(m: Seq<(Seq<char>, JsonView)>, keys: Seq<Seq<char>>, n: nat, k: Seq<char>)
    requires
        n <= keys.len(),
    ensures
        strmap::lookup(json::picked(m, keys, n), k) == (if keys.take(n as int).contains(k) {
            strmap::lookup(m, k)
        } else {
            None
        }),
    decreases n,
{
    if n == 0 {
        strmap::lemma_absent(Seq::<(Seq<char>, JsonView)>::empty(), k);
        assert(keys.take(0).len() == 0);
    } else {
        let before = json::picked(m, keys, (n - 1) as nat);
        let last = keys[n - 1];
        let short = keys.take(n - 1);
        let long = keys.take(n as int);
        lemma_picked(m, keys, (n - 1) as nat, k);
        assert(long =~= short.push(last));
        if let Some(v) = strmap::lookup(m, last) {
            strmap::law_put_lookup(before, last, v, k);
        }
        if long.contains(k) && k != last {
            let i = choose|i: int| 0 <= i < long.len() && long[i] == k;
            assert(short[i] == k);
        }
        if short.contains(k) {
            let i = choose|i: int| 0 <= i < short.len() && short[i] == k;
            assert(long[i] == k);
        }
        if k == last {
            assert(long[n - 1] == k);
        }
    }
}

proof fn lemma_dropped(m: Seq<(Seq<char>, JsonView)>, keys: Seq<Seq<char>>, n: nat, k: Seq<char>)
    requires
        n <= keys.len(),
        strmap::keys_distinct(m),
    ensures
        strmap::keys_distinct(json::dropped(m, keys, n)),
        strmap::lookup(json::dropped(m, keys, n), k) == (if keys.take(n as int).contains(k) {
            None
        } else {
            strmap::lookup(m, k)
        }),
    decreases n,
{
    if n == 0 {
        assert(keys.take(0).len() == 0);
    } else {
        let before = json::dropped(m, keys, (n - 1) as nat);
        let last = keys[n - 1];
        let short = keys.take(n - 1);
        let long = keys.take(n as int);
        lemma_dropped(m, keys, (n - 1) as nat, k);
        strmap::law_discard_lookup(before, last, k);
        assert(long =~= short.push(last));
        if long.contains(k) && k != last {
            let i = choose|i: int| 0 <= i < long.len() && long[i] == k;
            assert(short[i] == k);
        }
        if short.contains(k) {
            let i = choose|i: int| 0 <= i < short.len() && short[i] == k;
            assert(long[i] == k);
        }
        if k == last {
            assert(long[n - 1] == k);
        }
    }
}

/// What is picked from a part of the settings holds the members that are named, as they are, and
/// what is left of it the others.
pub proof fn law_members_are_parted(m: Seq<(Seq<char>, JsonView)>, keys: Seq<Seq<char>>, k: Seq<char>)
    requires
        strmap::keys_distinct(m),
    ensures
        json::member(json::pick(JsonView::Object(m), keys), k) == (if keys.contains(k) {
            strmap::lookup(m, k)
        } else {
            None
        }),
        json::member(json::without(JsonView::Object(m), keys), k) == (if keys.contains(k) {
            None
        } else {
            strmap::lookup(m, k)
        }),
{
    lemma_picked(m, keys, keys.len(), k);
    lemma_dropped(m, keys, keys.len(), k);
    assert(keys.take(keys.len() as int) =~= keys);
}

/// Every member for typing that is set is on one page only: the page of typing or one of those
/// that have it for their own.
pub proof fn law_typing_is_on_one_page(m: Seq<(Seq<char>, JsonView)>, k: Seq<char>)
    requires
        strmap::keys_distinct(m),
        strmap::lookup(m, k) is Some,
    ensures
        json::member(json::without(JsonView::Object(m), placed_input()), k) is Some <==> !(
        system_keys().input.contains(k) || fuzzy_keys().input.contains(k)
            || double_pinyin_keys().input.contains(k) || punctuation_keys().input.contains(k)),
{
    law_members_are_parted(m, placed_input(), k);
    lemma_placed_input(k);
}

/// A member of a page that is no object comes back when the page is laid over any settings.
pub proof fn law_plain_member_comes_back(
    b: Seq<(Seq<char>, JsonView)>,
    p: Seq<(Seq<char>, JsonView)>,
    k: Seq<char>,
)
    requires
        strmap::keys_distinct(p),
        strmap::lookup(p, k) is Some,
        !(strmap::lookup(p, k)->0 is Object),
    ensures
        json::member(json::merge(JsonView::Object(b), JsonView::Object(p)), k) == strmap::lookup(
            p,
            k,
        ),
{
    json::law_merge_by_member(b, p, k);
}

/// A member of a part of the settings.
pub open spec fn inner(v: JsonView, part: Seq<char>, k: Seq<char>) -> Option<JsonView> {
    match json::member(v, part) {
        Some(p) => json::member(p, k),
        None => None,
    }
}

/// A value over which another is laid, where there are such.
pub open spec fn laid(old: Option<JsonView>, new: Option<JsonView>) -> Option<JsonView> {
    match (old, new) {
        (_, None) => old,
        (None, _) => new,
        (Some(o), Some(n)) => Some(json::merge(o, n)),
    }
}

/// Whether a value is an object in which no key occurs twice.
pub open spec fn is_table(v: JsonView) -> bool {
    v matches JsonView::Object(m) && strmap::keys_distinct(m)
}

/// Whether settings, and those for typing and for the appearance where there are such, are
/// objects in which no key occurs twice.
pub open spec fn well_keyed(v: JsonView) -> bool {
    &&& is_table(v)
    &&& json::member(v, "input"@) matches Some(p) ==> is_table(p)
    &&& json::member(v, "appearance"@) matches Some(p) ==> is_table(p)
}

/// Whether settings have a part for typing and one for the appearance.
pub open spec fn has_parts(v: JsonView) -> bool {
    &&& v is Object
    &&& json::member(v, "input"@) matches Some(p) && p is Object
    &&& json::member(v, "appearance"@) matches Some(p) && p is Object
}

/// The members of the settings that have a page as they are.
pub open spec fn placed_top() -> Seq<Seq<char>> {
    seq![
        "files"@,
        "linux"@,
        "punctuations"@,
        "hotkeys"@,
        "enable_quick_finals"@,
        "quick_finals"@,
        "layouts"@,
    ]
}

/// Whether a page has a member of the settings, or of a part of them, as it is in the settings
/// or not at all.
#[verifier::opaque]
spec fn page_fits(page: JsonView, full: JsonView, k: Seq<char>, top: bool, input: bool, appearance: bool) -> bool {
    &&& well_keyed(page)
    &&& k != "input"@ && k != "appearance"@ ==> json::member(page, k) == (if top {
        json::member(full, k)
    } else {
        None
    })
    &&& inner(page, "input"@, k) == (if input {
        inner(full, "input"@, k)
    } else {
        None
    })
    &&& inner(page, "appearance"@, k) == (if appearance {
        inner(full, "appearance"@, k)
    } else {
        None
    })
}

proof fn lemma_part_laid(s: JsonView, page: JsonView, part: Seq<char>, k: Seq<char>)
    requires
        s is Object,
        json::member(s, part) matches Some(p) && p is Object,
        is_table(page),
        json::member(page, part) matches Some(p) ==> is_table(p),
    ensures
        json::member(json::merge(s, page), part) matches Some(p) && p is Object,
        inner(json::merge(s, page), part, k) == laid(inner(s, part, k), inner(page, part, k)),
{
    let b = members_of(s);
    let p = members_of(page);
    json::law_merge_by_member(b, p, part);
    if let Some(v) = json::member(page, part) {
        let x = members_of(json::member(s, part)->0);
        let y = members_of(v);
        json::law_merge_by_member(x, y, k);
    }
}

proof fn lemma_page_laid(
    s: JsonView,
    page: JsonView,
    full: JsonView,
    k: Seq<char>,
    top: bool,
    input: bool,
    appearance: bool,
)
    requires
        has_parts(s),
        page_fits(page, full, k, top, input, appearance),
    ensures
        has_parts(json::merge(s, page)),
        k != "input"@ && k != "appearance"@ ==> json::member(json::merge(s, page), k) == (if top {
            laid(json::member(s, k), json::member(full, k))
        } else {
            json::member(s, k)
        }),
        inner(json::merge(s, page), "input"@, k) == (if input {
            laid(inner(s, "input"@, k), inner(full, "input"@, k))
        } else {
            inner(s, "input"@, k)
        }),
        inner(json::merge(s, page), "appearance"@, k) == (if appearance {
            laid(inner(s, "appearance"@, k), inner(full, "appearance"@, k))
        } else {
            inner(s, "appearance"@, k)
        }),
{
    reveal(page_fits);
    json::law_merge_by_member(members_of(s), members_of(page), k);
    lemma_part_laid(s, page, "input"@, k);
    lemma_part_laid(s, page, "appearance"@, k);
}

proof fn lemma_picked_distinct(m: Seq<(Seq<char>, JsonView)>, keys: Seq<Seq<char>>, n: nat)
    ensures
        strmap::keys_distinct(json::picked(m, keys, n)),
    decreases n,
{
    if n > 0 && n <= keys.len() {
        lemma_picked_distinct(m, keys, (n - 1) as nat);
        if let Some(v) = strmap::lookup(m, keys[n - 1]) {
            strmap::law_put_keeps_keys_distinct(
                json::picked(m, keys, (n - 1) as nat),
                keys[n - 1],
                v,
            );
        }
    }
}

/// Putting the given members of a part on a page that has none of it.
proof fn lemma_with_part(
    page: Seq<(Seq<char>, JsonView)>,
    full: JsonView,
    part: Seq<char>,
    keys: Seq<Seq<char>>,
    k: Seq<char>,
    other: Seq<char>,
)
    requires
        strmap::keys_distinct(page),
        strmap::lookup(page, part) is None,
        json::member(full, part) matches Some(p) ==> is_table(p),
    ensures
        ({
            let r = with_part(page, full, part, keys);
            &&& strmap::keys_distinct(r)
            &&& other != part ==> strmap::lookup(r, other) == strmap::lookup(page, other)
            &&& strmap::lookup(r, part) matches Some(p) ==> is_table(p)
            &&& inner(JsonView::Object(r), part, k) == (if keys.contains(k) {
                inner(full, part, k)
            } else {
                None
            })
        }),
{
    if let Some(v) = json::member(full, part) {
        let m = members_of(v);
        let p = json::pick(v, keys);
        lemma_picked(m, keys, keys.len(), k);
        lemma_picked_distinct(m, keys, keys.len());
        assert(keys.take(keys.len() as int) =~= keys);
        strmap::law_put_lookup(page, part, p, other);
        strmap::law_put_keeps_keys_distinct(page, part, p);
        if p == JsonView::Object(Seq::empty()) {
            strmap::lemma_absent(Seq::<(Seq<char>, JsonView)>::empty(), k);
        }
    }
}

/// Putting a part but for the given members on a page that has none of it.
proof fn lemma_with_rest(
    page: Seq<(Seq<char>, JsonView)>,
    full: JsonView,
    part: Seq<char>,
    keys: Seq<Seq<char>>,
    k: Seq<char>,
    other: Seq<char>,
)
    requires
        strmap::keys_distinct(page),
        strmap::lookup(page, part) is None,
        json::member(full, part) matches Some(p) ==> is_table(p),
    ensures
        ({
            let r = with_rest(page, full, part, keys);
            &&& strmap::keys_distinct(r)
            &&& other != part ==> strmap::lookup(r, other) == strmap::lookup(page, other)
            &&& strmap::lookup(r, part) matches Some(p) ==> is_table(p)
            &&& inner(JsonView::Object(r), part, k) == (if keys.contains(k) {
                None
            } else {
                inner(full, part, k)
            })
        }),
{
    if let Some(v) = json::member(full, part) {
        let m = members_of(v);
        let p = json::without(v, keys);
        lemma_dropped(m, keys, keys.len(), k);
        assert(keys.take(keys.len() as int) =~= keys);
        strmap::law_put_lookup(page, part, p, other);
        strmap::law_put_keeps_keys_distinct(page, part, p);
    }
}

proof fn lemma_page_of(full: JsonView, keys: PageKeys, k: Seq<char>)
    requires
        well_keyed(full),
        !keys.top.contains("input"@),
        !keys.top.contains("appearance"@),
    ensures
        page_fits(
            page_of(full, keys),
            full,
            k,
            keys.top.contains(k),
            keys.input.contains(k),
            keys.appearance.contains(k),
        ),
{
    reveal(page_fits);
    lemma_part_names();
    let m = members_of(full);
    let top = json::picked(m, keys.top, keys.top.len());
    assert(keys.top.take(keys.top.len() as int) =~= keys.top);
    lemma_picked(m, keys.top, keys.top.len(), k);
    lemma_picked(m, keys.top, keys.top.len(), "input"@);
    lemma_picked(m, keys.top, keys.top.len(), "appearance"@);
    lemma_picked_distinct(m, keys.top, keys.top.len());
    let one = with_part(top, full, "input"@, keys.input);
    lemma_with_part(top, full, "input"@, keys.input, k, k);
    lemma_with_part(top, full, "input"@, keys.input, k, "appearance"@);
    let two = with_part(one, full, "appearance"@, keys.appearance);
    lemma_with_part(one, full, "appearance"@, keys.appearance, k, k);
    lemma_with_part(one, full, "appearance"@, keys.appearance, k, "input"@);
    assert(inner(JsonView::Object(two), "input"@, k) == inner(JsonView::Object(one), "input"@, k));
}

/// A page with nothing but members of the settings as they are.
proof fn lemma_top_page(full: JsonView, keys: Seq<Seq<char>>, k: Seq<char>)
    requires
        well_keyed(full),
        !keys.contains("input"@),
        !keys.contains("appearance"@),
    ensures
        page_fits(
            JsonView::Object(json::picked(members_of(full), keys, keys.len())),
            full,
            k,
            keys.contains(k),
            false,
            false,
        ),
{
    reveal(page_fits);
    let m = members_of(full);
    assert(keys.take(keys.len() as int) =~= keys);
    lemma_picked(m, keys, keys.len(), k);
    lemma_picked(m, keys, keys.len(), "input"@);
    lemma_picked(m, keys, keys.len(), "appearance"@);
    lemma_picked_distinct(m, keys, keys.len());
}

proof fn lemma_typing_page(full: JsonView, k: Seq<char>)
    requires
        well_keyed(full),
    ensures
        page_fits(typing_page(full), full, k, k == "hotkeys"@, !placed_input().contains(k), false),
{
    reveal(page_fits);
    lemma_part_names();
    let keys = seq!["hotkeys"@];
    assert(keys[0] == "hotkeys"@);
    lemma_top_page(full, keys, k);
    let top = json::picked(members_of(full), keys, keys.len());
    let m = members_of(full);
    assert(keys.take(keys.len() as int) =~= keys);
    lemma_picked(m, keys, keys.len(), k);
    lemma_picked(m, keys, keys.len(), "input"@);
    lemma_picked(m, keys, keys.len(), "appearance"@);
    lemma_picked_distinct(m, keys, keys.len());
    lemma_with_rest(top, full, "input"@, placed_input(), k, k);
    lemma_with_rest(top, full, "input"@, placed_input(), k, "appearance"@);
}

proof fn lemma_appearance_page(full: JsonView, k: Seq<char>)
    requires
        well_keyed(full),
    ensures
        page_fits(appearance_page(full), full, k, false, false, !placed_appearance().contains(k)),
{
    reveal(page_fits);
    lemma_part_names();
    let none = Seq::<(Seq<char>, JsonView)>::empty();
    strmap::lemma_absent(none, k);
    strmap::lemma_absent(none, "input"@);
    strmap::lemma_absent(none, "appearance"@);
    lemma_with_rest(none, full, "appearance"@, placed_appearance(), k, k);
    lemma_with_rest(none, full, "appearance"@, placed_appearance(), k, "input"@);
}

/// The names of the parts are none of those of the members that have a page as they are.
proof fn lemma_part_names()
    ensures
        "input"@ != "appearance"@,
        "hotkeys"@ != "input"@,
        "hotkeys"@ != "appearance"@,
        !placed_top().contains("input"@),
        !placed_top().contains("appearance"@),
        !system_keys().top.contains("input"@),
        !system_keys().top.contains("appearance"@),
        !punctuation_keys().top.contains("input"@),
        !punctuation_keys().top.contains("appearance"@),
{
    reveal_strlit("input");
    reveal_strlit("appearance");
    reveal_strlit("files");
    reveal_strlit("linux");
    reveal_strlit("punctuations");
    reveal_strlit("hotkeys");
    reveal_strlit("enable_quick_finals");
    reveal_strlit("quick_finals");
    reveal_strlit("layouts");
    assert("input"@.len() == 5);
    assert("appearance"@.len() == 10);
    assert("files"@.len() == 5);
    assert("linux"@.len() == 5);
    assert("punctuations"@.len() == 12);
    assert("hotkeys"@.len() == 7);
    assert("enable_quick_finals"@.len() == 19);
    assert("quick_finals"@.len() == 12);
    assert("layouts"@.len() == 7);
    assert("input"@[0] == 'i');
    assert("files"@[0] == 'f');
    assert("linux"@[0] == 'l');
}

/// No member for typing has two pages of its own.
proof fn lemma_input_once(k: Seq<char>)
    ensures
        system_keys().input.contains(k) ==> !fuzzy_keys().input.contains(k)
            && !double_pinyin_keys().input.contains(k) && !punctuation_keys().input.contains(k),
        fuzzy_keys().input.contains(k) ==> !double_pinyin_keys().input.contains(k)
            && !punctuation_keys().input.contains(k),
        double_pinyin_keys().input.contains(k) ==> !punctuation_keys().input.contains(k),
{
    reveal_strlit("autostart");
    reveal_strlit("enabled_profiles");
    reveal_strlit("phantom_type");
    reveal_strlit("enable_fuzzy_pinyin");
    reveal_strlit("fuzzy_config");
    reveal_strlit("enable_double_pinyin");
    reveal_strlit("double_pinyin_scheme");
    reveal_strlit("enable_punctuation_long_press");
    reveal_strlit("punctuation_long_press_mappings");
    assert("autostart"@.len() == 9);
    assert("enabled_profiles"@.len() == 16);
    assert("phantom_type"@.len() == 12);
    assert("enable_fuzzy_pinyin"@.len() == 19);
    assert("fuzzy_config"@.len() == 12);
    assert("enable_double_pinyin"@.len() == 20);
    assert("double_pinyin_scheme"@.len() == 20);
    assert("enable_punctuation_long_press"@.len() == 29);
    assert("punctuation_long_press_mappings"@.len() == 31);
    assert("phantom_type"@[0] == 'p');
    assert("fuzzy_config"@[0] == 'f');
}

/// Each member that has a page as it is has one only.
proof fn lemma_top_once(k: Seq<char>)
    requires
        placed_top().contains(k),
    ensures
        ({
            let a = system_keys().top.contains(k);
            let b = punctuation_keys().top.contains(k);
            let c = k == "hotkeys"@;
            let d = seq!["enable_quick_finals"@, "quick_finals"@].contains(k);
            let e = seq!["layouts"@].contains(k);
            &&& a || b || c || d || e
            &&& a ==> !b && !c && !d && !e
            &&& b ==> !c && !d && !e
            &&& c ==> !d && !e
            &&& d ==> !e
        }),
{
    reveal_strlit("files");
    reveal_strlit("linux");
    reveal_strlit("punctuations");
    reveal_strlit("hotkeys");
    reveal_strlit("enable_quick_finals");
    reveal_strlit("quick_finals");
    reveal_strlit("layouts");
    assert("files"@.len() == 5);
    assert("linux"@.len() == 5);
    assert("punctuations"@.len() == 12);
    assert("hotkeys"@.len() == 7);
    assert("enable_quick_finals"@.len() == 19);
    assert("quick_finals"@.len() == 12);
    assert("layouts"@.len() == 7);
    assert("punctuations"@[0] == 'p');
    assert("quick_finals"@[0] == 'q');
    assert("hotkeys"@[0] == 'h');
    assert("layouts"@[0] == 'l');
    let s = system_keys().top;
    let p = punctuation_keys().top;
    let d = seq!["enable_quick_finals"@, "quick_finals"@];
    let e = seq!["layouts"@];
    assert(s[0] == "files"@ && s[1] == "linux"@);
    assert(p[0] == "punctuations"@);
    assert(d[0] == "enable_quick_finals"@ && d[1] == "quick_finals"@);
    assert(e[0] == "layouts"@);
}

/// The pages without their names.
pub open spec fn bare_pages(full: JsonView) -> Seq<JsonView> {
    all_pages(full).map_values(|p: (Seq<char>, JsonView)| p.1)
}

/// Settings taken apart into pages come back when the pages are laid over any settings: every
/// member for typing, for the appearance, and every other member that has a page, is laid over
/// the one that was there. So one that is no object comes back as it was.
pub proof fn law_settings_come_back(base: JsonView, full: JsonView, k: Seq<char>)
    requires
        has_parts(base),
        well_keyed(full),
    ensures
        ({
            let r = laid_over(base, bare_pages(full), bare_pages(full).len() as int);
            &&& placed_top().contains(k) ==> json::member(r, k) == laid(
                json::member(base, k),
                json::member(full, k),
            )
            &&& placed_top().contains(k) ==> (json::member(full, k) matches Some(v) ==> !(
            v is Object) ==> json::member(r, k) == Some(v))
            &&& inner(r, "input"@, k) == laid(inner(base, "input"@, k), inner(full, "input"@, k))
            &&& inner(full, "input"@, k) matches Some(v) ==> !(v is Object) ==> inner(
                r,
                "input"@,
                k,
            ) == Some(v)
            &&& inner(r, "appearance"@, k) == laid(
                inner(base, "appearance"@, k),
                inner(full, "appearance"@, k),
            )
            &&& inner(full, "appearance"@, k) matches Some(v) ==> !(v is Object) ==> inner(
                r,
                "appearance"@,
                k,
            ) == Some(v)
        }),
{
    let ps = bare_pages(full);
    lemma_part_names();
    lemma_input_once(k);
    if placed_top().contains(k) {
        lemma_top_once(k);
    }
    lemma_placed_input(k);
    assert(system_keys().appearance =~= placed_appearance());
    let s1 = laid_over(base, ps, 1);
    let s2 = laid_over(base, ps, 2);
    let s3 = laid_over(base, ps, 3);
    let s4 = laid_over(base, ps, 4);
    let s5 = laid_over(base, ps, 5);
    let s6 = laid_over(base, ps, 6);
    let s7 = laid_over(base, ps, 7);
    assert(laid_over(base, ps, 0) == base);
    let a = system_keys();
    lemma_page_of(full, a, k);
    lemma_page_laid(base, ps[0], full, k, a.top.contains(k), a.input.contains(k), a.appearance.contains(k));
    let b = fuzzy_keys();
    lemma_page_of(full, b, k);
    lemma_page_laid(s1, ps[1], full, k, b.top.contains(k), b.input.contains(k), b.appearance.contains(k));
    let c = double_pinyin_keys();
    lemma_page_of(full, c, k);
    lemma_page_laid(s2, ps[2], full, k, c.top.contains(k), c.input.contains(k), c.appearance.contains(k));
    let d = punctuation_keys();
    lemma_page_of(full, d, k);
    lemma_page_laid(s3, ps[3], full, k, d.top.contains(k), d.input.contains(k), d.appearance.contains(k));
    lemma_typing_page(full, k);
    lemma_page_laid(s4, ps[4], full, k, k == "hotkeys"@, !placed_input().contains(k), false);
    lemma_appearance_page(full, k);
    lemma_page_laid(s5, ps[5], full, k, false, false, !placed_appearance().contains(k));
    let q = seq!["enable_quick_finals"@, "quick_finals"@];
    let l = seq!["layouts"@];
    lemma_last_pages(full, k);
    lemma_page_laid(s6, ps[6], full, k, q.contains(k), false, false);
    lemma_page_laid(s7, ps[7], full, k, l.contains(k), false, false);
}

proof fn lemma_last_pages(full: JsonView, k: Seq<char>)
    requires
        well_keyed(full),
    ensures
        page_fits(
            quick_finals_page(full),
            full,
            k,
            seq!["enable_quick_finals"@, "quick_finals"@].contains(k),
            false,
            false,
        ),
        page_fits(layout_page(full), full, k, seq!["layouts"@].contains(k), false, false),
{
    lemma_part_names();
    let q = seq!["enable_quick_finals"@, "quick_finals"@];
    let l = seq!["layouts"@];
    let p = placed_top();
    assert(p[4] == q[0] && p[5] == q[1] && p[6] == l[0]);
    lemma_top_page(full, q, k);
    lemma_top_page(full, l, k);
}

proof fn lemma_placed_input(k: Seq<char>)
    ensures
        placed_input().contains(k) <==> system_keys().input.contains(k)
            || fuzzy_keys().input.contains(k) || double_pinyin_keys().input.contains(k)
            || punctuation_keys().input.contains(k),
{
    let p = placed_input();
    let a = system_keys().input;
    let b = fuzzy_keys().input;
    let c = double_pinyin_keys().input;
    let d = punctuation_keys().input;
    assert(p =~= a + b + c + d);
    if a.contains(k) {
        let i = choose|i: int| 0 <= i < a.len() && a[i] == k;
        assert(p[i] == k);
    }
    if b.contains(k) {
        let i = choose|i: int| 0 <= i < b.len() && b[i] == k;
        assert(p[a.len() + i] == k);
    }
    if c.contains(k) {
        let i = choose|i: int| 0 <= i < c.len() && c[i] == k;
        assert(p[a.len() + b.len() + i] == k);
    }
    if d.contains(k) {
        let i = choose|i: int| 0 <= i < d.len() && d[i] == k;
        assert(p[a.len() + b.len() + c.len() + i] == k);
    }
    if p.contains(k) {
        let i = choose|i: int| 0 <= i < p.len() && p[i] == k;
        if i < a.len() {
            assert(a[i] == k);
        } else if i < a.len() + b.len() {
            assert(b[i - a.len()] == k);
        } else if i < a.len() + b.len() + c.len() {
            assert(c[i - a.len() - b.len()] == k);
        } else {
            assert(d[i - a.len() - b.len() - c.len()] == k);
        }
    }
}

} // verus!
