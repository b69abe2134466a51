//! What is promised of what is kept: words and their order of use, the history, settings, and what is
//! picked out of them.

use vstd::prelude::*;
use crate::actor;
use crate::config_manager;
use crate::config_manager::{SaveKind, Store};
use crate::context;
use crate::json;
use crate::json::JsonView;
use crate::keys;
use crate::memory;
use crate::memory::Words;
use crate::order;
use crate::session_state::Lasting;
use crate::strmap;
use crate::text;
use crate::userdict;

verus! {

/// Whether an entry stands under a key of a profile.
pub open spec fn holds_entry(p: userdict::ProfileWords, key: Seq<char>, e: (Seq<char>, u32)) -> bool {
    exists|x: int| 0 <= x < p.len() && (#[trigger] p[x]).0 == key && p[x].1.contains(e)
}

proof fn lemma_rarer(r: memory::Rarest, key: int, l: Words, n: int)
    requires
        0 <= n <= l.len(),
        key >= 0,
    ensures
        ({
            let s = memory::rarer_word(r, key, l, n);
            &&& s == r || (s.key == key && 0 <= s.at < n && s.count == l[s.at].1)
            &&& s.count <= r.count
            &&& forall|j: int| 0 <= j < n ==> s.count <= (#[trigger] l[j]).1
        }),
    decreases n,
{
    if n > 0 {
        lemma_rarer(r, key, l, n - 1);
    }
}

proof fn lemma_rarest(p: userdict::ProfileWords, n: int)
    requires
        0 <= n <= p.len(),
    ensures
        ({
            let s = memory::rarest_word(p, n);
            &&& s.key == -1 ==> s.count == u32::MAX
            &&& s.key != -1 ==> 0 <= s.key < n && 0 <= s.at < p[s.key].1.len() && s.count
                == p[s.key].1[s.at].1
            &&& forall|x: int, y: int|
                0 <= x < n && 0 <= y < p[x].1.len() ==> s.count <= (#[trigger] p[x].1[y]).1
        }),
    decreases n,
{
    if n > 0 {
        lemma_rarest(p, n - 1);
        lemma_rarer(memory::rarest_word(p, n - 1), n - 1, p[n - 1].1, p[n - 1].1.len() as int);
        let s = memory::rarest_word(p, n);
        assert forall|x: int, y: int| 0 <= x < n && 0 <= y < p[x].1.len() implies s.count <= (
        #[trigger] p[x].1[y]).1 by {
            if x == n - 1 {
                assert(s.count <= p[n - 1].1[y].1);
            }
        }
    }
}

/// A word is given up only where there are too many, and then one that none counts less than; every
/// other word stays under its key.
pub proof fn law_rarest_word_is_given_up(p: userdict::ProfileWords, capacity: int)
    ensures
        memory::total(p, p.len() as int) <= capacity ==> memory::evicted(p, capacity) == p,
        memory::evicted(p, capacity) != p ==> exists|k: int, i: int|
            {
                &&& 0 <= k < p.len()
                &&& 0 <= i < p[k].1.len()
                &&& forall|x: int, y: int|
                    0 <= x < p.len() && 0 <= y < p[x].1.len() ==> (#[trigger] p[k].1[i]).1 <= (
                    #[trigger] p[x].1[y]).1
                &&& forall|x: int, y: int|
                    0 <= x < p.len() && 0 <= y < p[x].1.len() && (x != k || y != i) ==> holds_entry(
                        memory::evicted(p, capacity),
                        p[x].0,
                        #[trigger] p[x].1[y],
                    )
            },
{
    lemma_rarest(p, p.len() as int);
    let r = memory::rarest_word(p, p.len() as int);
    let q = memory::evicted(p, capacity);
    if q != p {
        let k = r.key;
        let i = r.at;
        let rest = p[k].1.remove(i);
        assert forall|x: int, y: int|
            0 <= x < p.len() && 0 <= y < p[x].1.len() && (x != k || y != i) implies holds_entry(
            q,
            p[x].0,
            #[trigger] p[x].1[y],
        ) by {
            if x == k {
                let z = if y < i {
                    y
                } else {
                    y - 1
                };
                assert(rest[z] == p[x].1[y]);
                assert(q[k].1.contains(p[x].1[y]));
            } else {
                let z = if rest.len() == 0 && x > k {
                    x - 1
                } else {
                    x
                };
                assert(q[z] == p[x]);
                assert(p[x].1.contains(p[x].1[y]));
            }
        }
        assert(p[k].1[i].1 == r.count);
    }
}

/// A word with a count has that count, and the counts of others stay.
pub proof fn law_words_have_their_counts(l: Words, w: Seq<char>, count: u32, other: Seq<char>)
    ensures
        strmap::lookup(memory::counted(l, w, count), w) == Some(count),
        other != w ==> strmap::lookup(memory::counted(l, w, count), other) == strmap::lookup(l, other),
{
    strmap::lemma_index(l, w);
    let i = strmap::index_of(l, w);
    strmap::law_put_lookup(l, w, count, other);
    assert(memory::counted(l, w, count) =~= strmap::put(l, w, count));
}

/// A word that is taken out stands under its key no more; every other word stays.
pub proof fn law_words_are_taken_out(
    p: userdict::ProfileWords,
    key: Seq<char>,
    w: Seq<char>,
    other: Seq<char>,
    e: (Seq<char>, u32),
)
    requires
        strmap::keys_distinct(p),
    ensures
        e.0 == w ==> !memory::words_or_none(memory::taken_out(p, key, w), key).contains(e),
        e.0 != w ==> (memory::words_or_none(memory::taken_out(p, key, w), key).contains(e)
            <==> memory::words_or_none(p, key).contains(e)),
        other != key ==> memory::words_or_none(memory::taken_out(p, key, w), other)
            == memory::words_or_none(p, other),
{
    if let Some(l) = strmap::lookup(p, key) {
        let f = memory::not_word(w);
        let rest = l.filter(f);
        strmap::law_put_lookup(p, key, rest, other);
        strmap::law_discard_lookup(p, key, other);
        if rest.contains(e) {
            let i = choose|i: int| 0 <= i < rest.len() && rest[i] == e;
            l.lemma_filter_pred(f, i);
            l.lemma_filter_contains_rev(f, e);
        }
        if l.contains(e) && e.0 != w {
            let i = choose|i: int| 0 <= i < l.len() && l[i] == e;
            l.lemma_filter_contains(f, i);
        }
    }
}

/// Of two words used one after the other the last comes first and the other behind it; no other word
/// is lost while there is room.
pub proof fn law_words_used_last_come_first(
    l: Seq<Seq<char>>,
    a: Seq<char>,
    b: Seq<char>,
    x: Seq<char>,
    length: int,
)
    requires
        length >= 2,
        a != b,
    ensures
        ({
            let m = memory::brought_forward(memory::brought_forward(l, a, length), b, length);
            &&& m.len() >= 2
            &&& m[0] == b
            &&& m[1] == a
        }),
        l.contains(x) && l.len() < length ==> memory::brought_forward(l, a, length).contains(x),
        !l.contains(x) && x != a ==> !memory::brought_forward(l, a, length).contains(x),
{
    reveal(Seq::filter);
    let f = memory::not_text(a);
    let all = seq![a] + l.filter(f);
    let m = memory::brought_forward(l, a, length);
    assert(m[0] == a);
    let g = memory::not_text(b);
    lemma_first_stays(m, g);
    let n = memory::brought_forward(m, b, length);
    assert(n[1] == m.filter(g)[0]);
    l.lemma_filter_len(f);
    if l.contains(x) && l.len() < length {
        let i = choose|i: int| 0 <= i < l.len() && l[i] == x;
        assert(m =~= all);
        if x != a {
            l.lemma_filter_contains(f, i);
            let j = choose|j: int| 0 <= j < l.filter(f).len() && l.filter(f)[j] == x;
            assert(all[j + 1] == x);
        } else {
            assert(m[0] == x);
        }
    }
    if m.contains(x) && x != a {
        let i = choose|i: int| 0 <= i < m.len() && m[i] == x;
        assert(l.filter(f)[i - 1] == x);
        l.lemma_filter_contains_rev(f, x);
    }
}

proof fn lemma_first_stays(s: Seq<Seq<char>>, f: spec_fn(Seq<char>) -> bool)
    requires
        s.len() > 0,
        f(s[0]),
    ensures
        s.filter(f).len() > 0,
        s.filter(f)[0] == s[0],
    decreases s.len(),
{
    reveal(Seq::filter);
    if s.len() > 1 {
        lemma_first_stays(s.drop_last(), f);
    } else {
        assert(s.drop_last().filter(f).len() == 0);
    }
}

proof fn lemma_words_joined(l: Words, m: Words, n: int, w: Seq<char>)
    requires
        0 <= n <= m.len(),
    ensures
        strmap::lookup(l, w) is Some ==> strmap::lookup(memory::words_joined(l, m, n), w)
            == strmap::lookup(l, w),
        strmap::lookup(l, w) is None ==> strmap::lookup(memory::words_joined(l, m, n), w)
            == strmap::lookup(m.take(n), w),
    decreases n,
{
    if n > 0 {
        lemma_words_joined(l, m, n - 1, w);
        let before = memory::words_joined(l, m, n - 1);
        let k = m[n - 1].0;
        strmap::lemma_index(before, k);
        strmap::law_put_lookup(before, k, m[n - 1].1, w);
        let a = m.take(n - 1);
        let b = m.take(n);
        assert(b =~= a.push(m[n - 1]));
        strmap::lemma_index(a, k);
        strmap::law_put_lookup(a, k, m[n - 1].1, w);
        if strmap::index_of(before, k) < 0 {
            assert(before.push(m[n - 1]) =~= strmap::put(before, k, m[n - 1].1));
        }
        if strmap::index_of(a, k) < 0 {
            assert(b =~= strmap::put(a, k, m[n - 1].1));
        } else {
            lemma_pushed_again(a, m[n - 1], w);
        }
        if w == k {
            lemma_words_joined(l, m, n - 1, k);
        }
    } else {
        strmap::lemma_absent::<u32>(m.take(0), w);
    }
}

proof fn lemma_pushed_again<T>(a: Seq<(Seq<char>, T)>, e: (Seq<char>, T), w: Seq<char>)
    requires
        strmap::index_of(a, e.0) >= 0,
    ensures
        strmap::lookup(a.push(e), w) == strmap::lookup(a, w),
{
    strmap::lemma_index(a, e.0);
    strmap::lemma_index(a, w);
    let b = a.push(e);
    let i = strmap::index_of(a, w);
    if i >= 0 {
        assert(strmap::is_first(b, w, i));
        strmap::lemma_first_is_index(b, w, i);
    } else {
        strmap::lemma_absent(b, w);
    }
}

/// Words that are joined with others keep their counts, and those that are only among the others have
/// theirs.
pub proof fn law_joined_words_keep_their_counts(l: Words, m: Words, w: Seq<char>)
    ensures
        strmap::lookup(l, w) is Some ==> strmap::lookup(
            memory::words_joined(l, m, m.len() as int),
            w,
        ) == strmap::lookup(l, w),
        strmap::lookup(l, w) is None ==> strmap::lookup(
            memory::words_joined(l, m, m.len() as int),
            w,
        ) == strmap::lookup(m, w),
{
    lemma_words_joined(l, m, m.len() as int, w);
    assert(m.take(m.len() as int) =~= m);
}

/// The words under a key of both profiles are joined under it.
pub proof fn law_keys_are_joined(p: userdict::ProfileWords, q: userdict::ProfileWords, key: Seq<char>)
    requires
        strmap::keys_distinct(q),
    ensures
        ({
            let m = memory::words_or_none(q, key);
            memory::words_or_none(memory::keys_joined(p, q, q.len() as int), key)
                == memory::words_joined(memory::words_or_none(p, key), m, m.len() as int)
        }),
{
    lemma_keys_joined(p, q, q.len() as int, key);
    assert(q.take(q.len() as int) =~= q);
}

proof fn lemma_keys_joined(
    p: userdict::ProfileWords,
    q: userdict::ProfileWords,
    n: int,
    key: Seq<char>,
)
    requires
        strmap::keys_distinct(q),
        0 <= n <= q.len(),
    ensures
        ({
            let m = memory::words_or_none(q.take(n), key);
            memory::words_or_none(memory::keys_joined(p, q, n), key) == memory::words_joined(
                memory::words_or_none(p, key),
                m,
                m.len() as int,
            )
        }),
    decreases n,
{
    if n > 0 {
        lemma_keys_joined(p, q, n - 1, key);
        let before = memory::keys_joined(p, q, n - 1);
        let (k, l) = q[n - 1];
        let a = q.take(n - 1);
        let b = q.take(n);
        assert forall|j: int| 0 <= j < a.len() implies (#[trigger] a[j]).0 != k by {
            assert(a[j] == q[j] && q[j].0 != q[n - 1].0);
        }
        strmap::lemma_absent(a, k);
        assert(b =~= strmap::put(a, k, l));
        strmap::law_put_lookup(a, k, l, key);
        strmap::law_put_lookup(
            before,
            k,
            memory::words_joined(memory::words_or_none(before, k), l, l.len() as int),
            key,
        );
    } else {
        strmap::lemma_absent::<Words>(q.take(0), key);
    }
}

/// The word put out last is the last of the history, and the two put out last are its last two, in
/// their order; joined they are one word behind the other.
pub proof fn law_history_ends_with_what_was_put_out(
    s: Lasting,
    p: Seq<char>,
    a: Seq<char>,
    q: Seq<char>,
    b: Seq<char>,
    most: int,
)
    requires
        s.history.len() <= 10,
    ensures
        s.remembered(p, a).last_word() == Some(a),
        s.remembered(p, a).remembered(q, b).last_two() == Some((a, b)),
        a.len() + b.len() <= most ==> s.remembered(p, a).remembered(q, b).joined(most) == seq![
            (p + q, a + b),
        ],
        a.len() + b.len() > most ==> s.remembered(p, a).remembered(q, b).joined(most).len() == 0,
{
}

/// Names stand for keys one after the other, and a name that stands for none is left out.
pub proof fn law_names_stand_for_keys(a: Seq<Seq<char>>, b: Seq<Seq<char>>, name: Seq<char>)
    ensures
        config_manager::keys_in(a + b) == config_manager::keys_in(a) + config_manager::keys_in(b),
        keys::key_named(text::lowercase(name)) is None ==> config_manager::keys_in(
            seq![name],
        ).len() == 0,
        keys::key_named(text::lowercase(name)) is Some ==> config_manager::keys_in(seq![name])
            == seq![keys::key_named(text::lowercase(name))->0],
    decreases b.len(),
{
    assert(seq![name].drop_last() =~= Seq::<Seq<char>>::empty());
    assert(config_manager::keys_in(seq![name].drop_last()) =~= Seq::empty());
    if b.len() > 0 {
        law_names_stand_for_keys(a, b.drop_last(), name);
        assert((a + b).drop_last() =~= a + b.drop_last());
        assert((a + b).last() == b.last());
    } else {
        assert(a + b =~= a);
    }
}

/// Everything of every profile is asked to be saved.
pub proof fn law_everything_is_saved(profiles: Seq<Seq<char>>, i: int)
    requires
        0 <= i < profiles.len(),
    ensures
        config_manager::save_all(profiles).contains((SaveKind::Learned, profiles[i])),
        config_manager::save_all(profiles).contains((SaveKind::LongTerm, profiles[i])),
        config_manager::save_all(profiles).contains((SaveKind::Order, profiles[i])),
        config_manager::save_all(profiles).contains((SaveKind::Ngram, profiles[i])),
        config_manager::save_all(profiles).len() == 4 * profiles.len(),
    decreases profiles.len(),
{
    let d = profiles.drop_last();
    let before = config_manager::save_all(d);
    let all = config_manager::save_all(profiles);
    let n = before.len() as int;
    if d.len() > 0 {
        law_everything_is_saved(d, 0);
    }
    if i < d.len() {
        law_everything_is_saved(d, i);
        let x = seq![
            (SaveKind::Learned, profiles[i]),
            (SaveKind::LongTerm, profiles[i]),
            (SaveKind::Order, profiles[i]),
            (SaveKind::Ngram, profiles[i]),
        ];
        assert forall|j: int| 0 <= j < 4 implies all.contains(#[trigger] x[j]) by {
            assert(before.contains(x[j]));
            let k = choose|k: int| 0 <= k < before.len() && before[k] == x[j];
            assert(all[k] == x[j]);
        }
        assert(all.contains(x[0]) && all.contains(x[1]) && all.contains(x[2]) && all.contains(x[3]));
    } else {
        assert(all[n] == (SaveKind::Learned, profiles[i]));
        assert(all[n + 1] == (SaveKind::LongTerm, profiles[i]));
        assert(all[n + 2] == (SaveKind::Order, profiles[i]));
        assert(all[n + 3] == (SaveKind::Ngram, profiles[i]));
    }
}

/// What is used is saved once enough time has passed, and then counts from there.
pub proof fn law_use_is_saved_in_time(s: Store, profile: Seq<char>, now: u64)
    requires
        now >= s.usage_last_save,
    ensures
        ({
            let r = s.saved_if_due(profile, now);
            let due = now - s.usage_last_save >= config_manager::USAGE_SAVE_INTERVAL;
            &&& due ==> r.usage_last_save == now && r.saves == s.saves + seq![
                (SaveKind::Order, profile),
                (SaveKind::Ngram, profile),
            ]
            &&& !due ==> r == s
        }),
{
    assert(s.saves.push((SaveKind::Order, profile)).push((SaveKind::Ngram, profile)) =~= s.saves
        + seq![(SaveKind::Order, profile), (SaveKind::Ngram, profile)]);
}

/// Picked out of an object are the members that are asked for, as they are, and no others.
pub proof fn law_members_are_picked(m: Seq<(Seq<char>, JsonView)>, keys: Seq<Seq<char>>, k: Seq<char>)
    ensures
        keys.contains(k) ==> json::member(json::pick(JsonView::Object(m), keys), k) == json::member(
            JsonView::Object(m),
            k,
        ),
        !keys.contains(k) ==> json::member(json::pick(JsonView::Object(m), keys), k) is None,
{
    lemma_picked(m, keys, keys.len(), k);
}

proof fn lemma_picked(m: Seq<(Seq<char>, JsonView)>, keys: Seq<Seq<char>>, n: nat, k: Seq<char>)
    requires
        n <= keys.len(),
    ensures
        (exists|i: int| 0 <= i < n && #[trigger] keys[i] == k) ==> strmap::lookup(
            json::picked(m, keys, n),
            k,
        ) == strmap::lookup(m, k),
        !(exists|i: int| 0 <= i < n && #[trigger] keys[i] == k) ==> strmap::lookup(
            json::picked(m, keys, n),
            k,
        ) is None,
    decreases n,
{
    if n > 0 {
        let d = (n - 1) as nat;
        lemma_picked(m, keys, d, k);
        let done = json::picked(m, keys, d);
        if let Some(v) = strmap::lookup(m, keys[n - 1]) {
            strmap::law_put_lookup(done, keys[n - 1], v, k);
        }
        if exists|i: int| 0 <= i < n && #[trigger] keys[i] == k {
            let i = choose|i: int| 0 <= i < n && #[trigger] keys[i] == k;
            if i < n - 1 {
                assert(exists|j: int| 0 <= j < d && #[trigger] keys[j] == k);
            }
        }
        if exists|i: int| 0 <= i < d && #[trigger] keys[i] == k {
            let i = choose|i: int| 0 <= i < d && #[trigger] keys[i] == k;
            assert(keys[i] == k && i < n);
        }
    } else {
        strmap::lemma_absent::<JsonView>(Seq::empty(), k);
    }
}

/// An object without some members has all the others as they are.
pub proof fn law_members_are_left_out(
    m: Seq<(Seq<char>, JsonView)>,
    keys: Seq<Seq<char>>,
    k: Seq<char>,
)
    requires
        strmap::keys_distinct(m),
    ensures
        keys.contains(k) ==> json::member(json::without(JsonView::Object(m), keys), k) is None,
        !keys.contains(k) ==> json::member(json::without(JsonView::Object(m), keys), k)
            == json::member(JsonView::Object(m), k),
{
    lemma_dropped(m, keys, keys.len(), k);
}

proof fn lemma_dropped(m: Seq<(Seq<char>, JsonView)>, keys: Seq<Seq<char>>, n: nat, k: Seq<char>)
    requires
        n <= keys.len(),
        strmap::keys_distinct(m),
    ensures
        strmap::keys_distinct(json::dropped(m, keys, n)),
        (exists|i: int| 0 <= i < n && #[trigger] keys[i] == k) ==> strmap::lookup(
            json::dropped(m, keys, n),
            k,
        ) is None,
        !(exists|i: int| 0 <= i < n && #[trigger] keys[i] == k) ==> strmap::lookup(
            json::dropped(m, keys, n),
            k,
        ) == strmap::lookup(m, k),
    decreases n,
{
    if n > 0 {
        let d = (n - 1) as nat;
        lemma_dropped(m, keys, d, k);
        let done = json::dropped(m, keys, d);
        strmap::law_discard_lookup(done, keys[n - 1], k);
        if exists|i: int| 0 <= i < n && #[trigger] keys[i] == k {
            let i = choose|i: int| 0 <= i < n && #[trigger] keys[i] == k;
            if i < n - 1 {
                assert(exists|j: int| 0 <= j < d && #[trigger] keys[j] == k);
            }
        }
        if exists|i: int| 0 <= i < d && #[trigger] keys[i] == k {
            let i = choose|i: int| 0 <= i < d && #[trigger] keys[i] == k;
            assert(keys[i] == k && i < n);
        }
    }
}

/// A number in digits is read as the number again.
pub proof fn law_numbers_are_read_back(n: nat)
    ensures
        text::all_digits(actor::decimal(n)),
        text::digits_value(actor::decimal(n)) == n,
        n < 10 ==> actor::decimal(n).len() == 1,
    decreases n,
{
    let s = actor::decimal(n);
    if n < 10 {
        assert(s.drop_last() =~= Seq::<char>::empty());
        assert(text::digits_value(s.drop_last()) == 0);
    } else {
        law_numbers_are_read_back(n / 10);
        assert(s.drop_last() =~= actor::decimal(n / 10));
        let t = actor::decimal(n / 10);
        assert forall|i: int| 0 <= i < s.len() implies text::is_digit_char(#[trigger] s[i]) by {
            if i < t.len() {
                assert(text::is_digit_char(t[i]));
                assert(s[i] == t[i]);
            }
        }
    }
}

/// The profiles that are taken from names between commas are those that have a dictionary, without the
/// white space around them.
pub proof fn law_known_profiles_are_taken(names: Seq<char>, profiles: Set<Seq<char>>, p: Seq<char>)
    ensures
        actor::known_profiles(names, profiles).contains(p) <==> profiles.contains(p) && (exists|i: int|
            0 <= i < text::fields(names, seq![',']).len() && text::trimmed(
                #[trigger] text::fields(names, seq![','])[i],
            ) == p),
{
    let parts = text::fields(names, seq![',']);
    let all = parts.map_values(|s: Seq<char>| text::trimmed(s));
    let f = context::has_dictionary(profiles);
    let kept = all.filter(f);
    if kept.contains(p) {
        let i = choose|i: int| 0 <= i < kept.len() && kept[i] == p;
        all.lemma_filter_pred(f, i);
        all.lemma_filter_contains_rev(f, p);
        let j = choose|j: int| 0 <= j < all.len() && all[j] == p;
        assert(text::trimmed(parts[j]) == p);
    }
    if profiles.contains(p) && (exists|i: int|
        0 <= i < parts.len() && text::trimmed(#[trigger] parts[i]) == p) {
        let i = choose|i: int| 0 <= i < parts.len() && text::trimmed(#[trigger] parts[i]) == p;
        assert(all[i] == p);
        all.lemma_filter_contains(f, i);
    }
}

/// Words by their count are in order: those used more often come first, and none is lost.
pub proof fn law_words_are_by_their_count(l: Words, w: Seq<char>, i: int, j: int)
    requires
        0 <= i < j < memory::used(l, w, true).len(),
    ensures
        memory::used(l, w, true)[i].1 >= memory::used(l, w, true)[j].1,
        memory::used(l, w, true).len() >= l.len(),
{
    let k = strmap::index_of(l, w);
    let m = if k >= 0 {
        l.update(k, (l[k].0, memory::one_more(l[k].1)))
    } else {
        l.push((w, 1))
    };
    order::law_arranged_keeps_items(m, memory::counts_more());
    order::law_arranged_in_order(m, memory::counts_more());
    let r = order::arranged(m, memory::counts_more());
    assert(!memory::counts_more()(r[j], r[i]));
}

/// Words that are kept for long under a key are found there, others stay, and saving them is asked for.
pub proof fn law_words_are_kept_for_long(
    s: Store,
    profile: Seq<char>,
    key: Seq<char>,
    l: Words,
    other: Seq<char>,
)
    ensures
        ({
            let r = s.with_long_term(profile, key, l);
            &&& memory::words_or_none(memory::profile_or_none(r.long_term, profile), key) == l
            &&& other != key ==> memory::words_or_none(
                memory::profile_or_none(r.long_term, profile),
                other,
            ) == memory::words_or_none(memory::profile_or_none(s.long_term, profile), other)
            &&& other != profile ==> memory::profile_or_none(r.long_term, other)
                == memory::profile_or_none(s.long_term, other)
            &&& r.saves == s.saves.push((SaveKind::LongTerm, profile))
            &&& r.learned == s.learned
        }),
{
    let p = memory::profile_or_none(s.long_term, profile);
    strmap::law_put_lookup(p, key, l, other);
    strmap::law_put_lookup(s.long_term, profile, strmap::put(p, key, l), other);
}

/// What follows a word is kept under it, and what follows others stays.
pub proof fn law_followers_are_kept(
    s: Store,
    profile: Seq<char>,
    before: Seq<char>,
    l: Words,
    other: Seq<char>,
    now: u64,
)
    ensures
        ({
            let r = s.with_ngram(profile, before, l, now);
            &&& memory::words_or_none(memory::profile_or_none(r.ngram, profile), before) == l
            &&& other != before ==> memory::words_or_none(
                memory::profile_or_none(r.ngram, profile),
                other,
            ) == memory::words_or_none(memory::profile_or_none(s.ngram, profile), other)
            &&& r.learned == s.learned
            &&& r.order == s.order
        }),
{
    let p = memory::profile_or_none(s.ngram, profile);
    strmap::law_put_lookup(p, before, l, other);
    strmap::law_put_lookup(s.ngram, profile, strmap::put(p, before, l), other);
}


/// A number in digits is taken for the number where it is not too large, and otherwise for none.
pub proof fn law_numbers_are_taken_up_to_a_limit(n: nat, max: int)
    ensures
        n <= max ==> text::number(actor::decimal(n), max) == Some(n as int),
        n > max ==> text::number(actor::decimal(n), max) is None,
{
    law_numbers_are_read_back(n);
    assert(actor::decimal(n).len() > 0);
    assert(text::is_digit_char(actor::decimal(n)[0]));
}


/// What is shown in the application is what the settings say, and nothing where it cannot be shown.
pub proof fn law_settings_say_what_is_shown(s: Store)
    ensures
        s.phantom_unsupported ==> s.phantom() == crate::config::PhantomType::Off,
        !s.phantom_unsupported ==> s.phantom() == s.config.input.phantom_type,
{
}


} // verus!
