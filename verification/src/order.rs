//! Stable sorting and first-come deduplication.

use vstd::prelude::*;

verus! {

/// Puts an item in front of the first one that does not go before it.
pub open spec fn placed<T>(x: T, s: Seq<T>, before: spec_fn(T, T) -> bool) -> Seq<T>
    decreases s.len(),
{
    if s.len() == 0 || !before(s[0], x) {
        seq![x] + s
    } else {
        seq![s[0]] + placed(x, s.drop_first(), before)
    }
}

/// The stable arrangement of a sequence: what goes before comes first, and items of which
/// neither goes before the other keep their order.
pub open spec fn arranged<T>(s: Seq<T>, before: spec_fn(T, T) -> bool) -> Seq<T>
    decreases s.len(),
{
    if s.len() == 0 {
        s
    } else {
        placed(s[0], arranged(s.drop_first(), before), before)
    }
}

/// Whether nothing stands behind an item that it goes before.
pub open spec fn in_order<T>(s: Seq<T>, before: spec_fn(T, T) -> bool) -> bool {
    forall|i: int, j: int| 0 <= i < j < s.len() ==> !before(#[trigger] s[j], #[trigger] s[i])
}

/// Whether a relation is a strict weak order: no item goes before itself, and going before
/// and not going before are both transitive.
pub open spec fn weak_order<T>(before: spec_fn(T, T) -> bool) -> bool {
    &&& forall|a: T, b: T| #[trigger] before(a, b) ==> !before(b, a)
    &&& forall|a: T, b: T, c: T|
        !(#[trigger] before(a, b)) && !(#[trigger] before(b, c)) ==> !before(a, c)
}

pub proof fn lemma_placed_len<T>(x: T, s: Seq<T>, before: spec_fn(T, T) -> bool)
    ensures
        placed(x, s, before).len() == s.len() + 1,
        placed(x, s, before).to_multiset() =~= s.to_multiset().insert(x),
    decreases s.len(),
{
    broadcast use vstd::seq_lib::group_to_multiset_ensures;

    if s.len() == 0 || !before(s[0], x) {
        assert(seq![x] + s =~= s.insert(0, x));
    } else {
        lemma_placed_len(x, s.drop_first(), before);
        let t = placed(x, s.drop_first(), before);
        assert(seq![s[0]] + t =~= t.insert(0, s[0]));
        assert(s =~= s.drop_first().insert(0, s[0]));
    }
}

/// Sorting keeps the items: their number, and how often each occurs.
pub proof fn law_arranged_keeps_items<T>(s: Seq<T>, before: spec_fn(T, T) -> bool)
    ensures
        arranged(s, before).len() == s.len(),
        arranged(s, before).to_multiset() =~= s.to_multiset(),
    decreases s.len(),
{
    broadcast use vstd::seq_lib::group_to_multiset_ensures;

    if s.len() > 0 {
        law_arranged_keeps_items(s.drop_first(), before);
        lemma_placed_len(s[0], arranged(s.drop_first(), before), before);
        assert(s =~= s.drop_first().insert(0, s[0]));
    }
}

proof fn lemma_placed_in_order<T>(x: T, s: Seq<T>, before: spec_fn(T, T) -> bool)
    requires
        weak_order(before),
        in_order(s, before),
    ensures
        in_order(placed(x, s, before), before),
        forall|k: int|
            0 <= k < placed(x, s, before).len() ==> #[trigger] placed(x, s, before)[k] == x
                || s.contains(placed(x, s, before)[k]),
    decreases s.len(),
{
    let t = placed(x, s, before);
    if s.len() == 0 || !before(s[0], x) {
        assert forall|i: int, j: int| 0 <= i < j < t.len() implies !before(
            #[trigger] t[j],
            #[trigger] t[i],
        ) by {
            if i == 0 {
                assert(t[j] == s[j - 1]);
                if j - 1 > 0 {
                    assert(!before(s[j - 1], s[0]));
                }
            } else {
                assert(t[j] == s[j - 1] && t[i] == s[i - 1]);
            }
        }
        assert forall|k: int| 0 <= k < t.len() implies #[trigger] t[k] == x || s.contains(t[k]) by {
            if k > 0 {
                assert(t[k] == s[k - 1]);
            }
        }
    } else {
        let r = s.drop_first();
        assert forall|i: int, j: int| 0 <= i < j < r.len() implies !before(
            #[trigger] r[j],
            #[trigger] r[i],
        ) by {
            assert(r[j] == s[j + 1] && r[i] == s[i + 1]);
        }
        lemma_placed_in_order(x, r, before);
        let p = placed(x, r, before);
        lemma_placed_len(x, r, before);
        assert forall|k: int| 0 <= k < r.len() implies !before(#[trigger] r[k], s[0]) by {
            assert(r[k] == s[k + 1]);
        }
        assert forall|i: int, j: int| 0 <= i < j < t.len() implies !before(
            #[trigger] t[j],
            #[trigger] t[i],
        ) by {
            assert(t[j] == p[j - 1]);
            if i > 0 {
                assert(t[i] == p[i - 1]);
            } else if p[j - 1] != x {
                let m = choose|m: int| 0 <= m < r.len() && r[m] == p[j - 1];
                assert(!before(r[m], s[0]));
            }
        }
        assert forall|k: int| 0 <= k < t.len() implies #[trigger] t[k] == x || s.contains(t[k]) by {
            if k == 0 {
                assert(s.contains(s[0]));
            } else {
                assert(t[k] == p[k - 1]);
                if p[k - 1] != x {
                    let m = choose|m: int| 0 <= m < r.len() && r[m] == p[k - 1];
                    assert(s[m + 1] == t[k]);
                }
            }
        }
    }
}

/// Sorting by a strict weak order puts nothing behind an item that it goes before.
pub proof fn law_arranged_in_order<T>(s: Seq<T>, before: spec_fn(T, T) -> bool)
    requires
        weak_order(before),
    ensures
        in_order(arranged(s, before), before),
    decreases s.len(),
{
    if s.len() > 0 {
        law_arranged_in_order(s.drop_first(), before);
        lemma_placed_in_order(s[0], arranged(s.drop_first(), before), before);
    }
}

proof fn lemma_placed_map<A, B>(
    x: A,
    s: Seq<A>,
    f: spec_fn(A) -> B,
    before_a: spec_fn(A, A) -> bool,
    before_b: spec_fn(B, B) -> bool,
)
    requires
        forall|a: A, b: A| #[trigger] before_a(a, b) == before_b(f(a), f(b)),
    ensures
        placed(x, s, before_a).map_values(f) == placed(f(x), s.map_values(f), before_b),
    decreases s.len(),
{
    if s.len() == 0 || !before_a(s[0], x) {
        assert((seq![x] + s).map_values(f) =~= seq![f(x)] + s.map_values(f));
    } else {
        lemma_placed_map(x, s.drop_first(), f, before_a, before_b);
        assert(s.drop_first().map_values(f) =~= s.map_values(f).drop_first());
        let t = placed(x, s.drop_first(), before_a);
        assert((seq![s[0]] + t).map_values(f) =~= seq![f(s[0])] + t.map_values(f));
    }
}

/// Sorting by what is seen of the items is sorting what is seen of them.
pub proof fn lemma_arranged_map<A, B>(
    s: Seq<A>,
    f: spec_fn(A) -> B,
    before_a: spec_fn(A, A) -> bool,
    before_b: spec_fn(B, B) -> bool,
)
    requires
        forall|a: A, b: A| #[trigger] before_a(a, b) == before_b(f(a), f(b)),
    ensures
        arranged(s, before_a).map_values(f) == arranged(s.map_values(f), before_b),
    decreases s.len(),
{
    if s.len() == 0 {
        assert(s.map_values(f) =~= Seq::<B>::empty());
    } else {
        lemma_arranged_map(s.drop_first(), f, before_a, before_b);
        lemma_placed_map(s[0], arranged(s.drop_first(), before_a), f, before_a, before_b);
        assert(s.drop_first().map_values(f) =~= s.map_values(f).drop_first());
    }
}

/// Sorts stably: `first(a, b)` says whether `a` goes before `b`.
pub(crate) fn sort_stable<T, F: Fn(&T, &T) -> bool>(
    v: &mut Vec<T>,
    first: F,
    Ghost(before): Ghost<spec_fn(T, T) -> bool>,
)
    requires
        forall|a: &T, b: &T| call_requires(first, (a, b)),
        forall|a: &T, b: &T, r: bool| call_ensures(first, (a, b), r) ==> r == before(*a, *b),
    ensures
        final(v)@ == arranged(old(v)@, before),
{
    let ghost s = v@;
    let mut out: Vec<T> = Vec::new();
    proof {
        assert(s.skip(s.len() as int) =~= Seq::<T>::empty());
        assert(s.take(s.len() as int) =~= s);
    }
    loop
        invariant
            forall|a: &T, b: &T| call_requires(first, (a, b)),
            forall|a: &T, b: &T, r: bool| call_ensures(first, (a, b), r) ==> r == before(*a, *b),
            v@.len() <= s.len(),
            v@ == s.take(v@.len() as int),
            out@ == arranged(s.skip(v@.len() as int), before),
        ensures
            v@.len() == 0,
            out@ == arranged(s, before),
        decreases v@.len(),
    {
        let ghost n = v@.len() as int;
        match v.pop() {
            None => {
                proof {
                    assert(s.skip(0) =~= s);
                }
                break ;
            },
            Some(x) => {
                let ghost t = out@;
                let mut p: usize = 0;
                proof {
                    assert(x == s[n - 1]);
                    assert(t.skip(0) =~= t);
                    assert(t.take(0) + placed(x, t, before) =~= placed(x, t, before));
                }
                while p < out.len()
                    invariant
                        forall|a: &T, b: &T| call_requires(first, (a, b)),
                        forall|a: &T, b: &T, r: bool|
                            call_ensures(first, (a, b), r) ==> r == before(*a, *b),
                        p <= out.len(),
                        out@ == t,
                        placed(x, t, before) == t.take(p as int) + placed(
                            x,
                            t.skip(p as int),
                            before,
                        ),
                    ensures
                        p <= out.len(),
                        out@ == t,
                        placed(x, t, before) == t.take(p as int) + placed(
                            x,
                            t.skip(p as int),
                            before,
                        ),
                        p == out.len() || !before(t[p as int], x),
                    decreases out.len() - p,
                {
                    if !first(&out[p], &x) {
                        break ;
                    }
                    proof {
                        let r = t.skip(p as int);
                        assert(r[0] == t[p as int]);
                        assert(r.drop_first() =~= t.skip(p + 1));
                        assert(t.take(p as int) + (seq![r[0]] + placed(x, r.drop_first(), before))
                            =~= t.take(p + 1) + placed(x, t.skip(p + 1), before));
                    }
                    p = p + 1;
                }
                out.insert(p, x);
                proof {
                    let r = t.skip(p as int);
                    assert(placed(x, r, before) =~= seq![x] + r);
                    assert(out@ =~= t.take(p as int) + (seq![x] + r));
                    assert(s.skip(n - 1)[0] == x);
                    assert(s.skip(n - 1).drop_first() =~= s.skip(n));
                    assert(v@ =~= s.take(n - 1));
                }
            },
        }
    }
    v.append(&mut out);
    proof {
        assert(v@ =~= arranged(s, before));
    }
}

/// Arranging keeps every item, wherever it then stands.
pub proof fn lemma_arranged_contains<T>(s: Seq<T>, before: spec_fn(T, T) -> bool, x: T)
    ensures
        arranged(s, before).contains(x) <==> s.contains(x),
{
    broadcast use vstd::seq_lib::group_to_multiset_ensures;

    law_arranged_keeps_items(s, before);
    assert(arranged(s, before).to_multiset().count(x) == s.to_multiset().count(x));
}

proof fn lemma_placed_stable<T>(x: T, s: Seq<T>, before: spec_fn(T, T) -> bool, p: spec_fn(T) -> bool)
    requires
        forall|a: T, b: T| p(a) && p(b) ==> !#[trigger] before(a, b),
    ensures
        placed(x, s, before).filter(p) == (if p(x) {
            seq![x] + s.filter(p)
        } else {
            s.filter(p)
        }),
    decreases s.len(),
{
    s.lemma_filter_prepend(x, p);
    if s.len() > 0 && before(s[0], x) {
        let rest = s.drop_first();
        lemma_placed_stable(x, rest, before, p);
        placed(x, rest, before).lemma_filter_prepend(s[0], p);
        rest.lemma_filter_prepend(s[0], p);
        assert(seq![s[0]] + rest =~= s);
        if p(s[0]) && !p(x) {
            assert(placed(x, s, before).filter(p) =~= s.filter(p));
        }
    }
}

/// Items of which none goes before another keep the order in which they stood.
pub proof fn law_arranged_is_stable<T>(s: Seq<T>, before: spec_fn(T, T) -> bool, p: spec_fn(T) -> bool)
    requires
        forall|a: T, b: T| p(a) && p(b) ==> !#[trigger] before(a, b),
    ensures
        arranged(s, before).filter(p) == s.filter(p),
    decreases s.len(),
{
    if s.len() > 0 {
        let rest = s.drop_first();
        law_arranged_is_stable(rest, before, p);
        lemma_placed_stable(s[0], arranged(rest, before), before, p);
        rest.lemma_filter_prepend(s[0], p);
        assert(seq![s[0]] + rest =~= s);
    }
}

} // verus!
