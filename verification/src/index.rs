//! The key index of a dictionary: an ordered map from byte strings to numbers, kept in the
//! finite-state form of the `fst` crate.

use vstd::prelude::*;
use vstd::utf8::*;
use fst::automaton::Automaton;
use fst::IntoStreamer;

verus! {

#[verifier::external_type_specification]
#[verifier::external_body]
#[verifier::reject_recursive_types(D)]
pub struct ExFstMap<D>(fst::Map<D>);

#[verifier::external_type_specification]
#[verifier::external_body]
pub struct ExFstError(fst::Error);

/// The bytes that a map is read from.
pub uninterp spec fn fst_bytes(m: fst::Map<Vec<u8>>) -> Seq<u8>;

/// The keys and values of the map that the given bytes stand for.
pub uninterp spec fn fst_entries(bytes: Seq<u8>) -> Map<Seq<u8>, u64>;

/// Whether the bytes hold a whole transducer in the form that a builder of the `fst` crate
/// writes, whatever their checksum is. The crate reads other bytes too, and then may panic or
/// come up with anything; it has no test that tells them apart.
pub uninterp spec fn fst_whole(bytes: Seq<u8>) -> bool;

/// Whether `fst::Map::new` takes the bytes.
pub uninterp spec fn fst_accepts(bytes: Seq<u8>) -> bool;

/// Whether the automaton for a query would pass the size limit of the `fst` crate.
pub uninterp spec fn levenshtein_too_big(query: Seq<char>) -> bool;

/// Whether the automaton of distance one for a query accepts a key.
pub uninterp spec fn levenshtein_accepts(query: Seq<char>, key: Seq<u8>) -> bool;

/// Whether one byte string comes before another in the order of a dictionary.
pub open spec fn bytes_before(a: Seq<u8>, b: Seq<u8>) -> bool
    decreases a.len(),
{
    if b.len() == 0 {
        false
    } else if a.len() == 0 {
        true
    } else if a[0] != b[0] {
        a[0] < b[0]
    } else {
        bytes_before(a.drop_first(), b.drop_first())
    }
}

/// Whether one text comes before another, byte by byte.
pub open spec fn text_before(a: Seq<char>, b: Seq<char>) -> bool {
    bytes_before(encode_utf8(a), encode_utf8(b))
}

/// Whether a byte string begins with another.
pub open spec fn bytes_begin(s: Seq<u8>, p: Seq<u8>) -> bool {
    p.len() <= s.len() && s.take(p.len() as int) == p
}

/// Whether a text can be turned into another by putting in, taking out or exchanging at
/// most one character.
pub open spec fn one_edit_apart(a: Seq<char>, b: Seq<char>) -> bool {
    ||| a == b
    ||| exists|i: int| 0 <= i < a.len() && #[trigger] a.remove(i) == b
    ||| exists|i: int| 0 <= i < b.len() && #[trigger] b.remove(i) == a
    ||| a.len() == b.len() && exists|i: int|
        0 <= i < a.len() && #[trigger] a.update(i, b[i]) == b
}

/// The keys and values of a list, seen as byte strings and numbers.
pub open spec fn pairs_of(v: Seq<(Vec<u8>, u64)>) -> Seq<(Seq<u8>, u64)> {
    v.map_values(|p: (Vec<u8>, u64)| (p.0@, p.1))
}

/// Whether a list holds, in the order of their keys, exactly those entries of a map whose
/// keys are wanted.
pub open spec fn lists(
    s: Seq<(Seq<u8>, u64)>,
    m: Map<Seq<u8>, u64>,
    wanted: spec_fn(Seq<u8>) -> bool,
) -> bool {
    &&& forall|i: int, j: int|
        0 <= i < j < s.len() ==> bytes_before((#[trigger] s[i]).0, (#[trigger] s[j]).0)
    &&& forall|i: int|
        0 <= i < s.len() ==> m.contains_key((#[trigger] s[i]).0) && m[s[i].0] == s[i].1 && wanted(
            s[i].0,
        )
    &&& forall|k: Seq<u8>| #[trigger]
        m.contains_key(k) && wanted(k) ==> exists|i: int| 0 <= i < s.len() && (#[trigger] s[i]).0 == k
}

/// The keys that begin with a text.
pub open spec fn beginning_with(p: Seq<char>) -> spec_fn(Seq<u8>) -> bool {
    |k: Seq<u8>| bytes_begin(k, encode_utf8(p))
}

/// The keys that are texts at most one edit away from a text.
pub open spec fn near(q: Seq<char>) -> spec_fn(Seq<u8>) -> bool {
    |k: Seq<u8>| valid_utf8(k) && one_edit_apart(q, decode_utf8(k))
}

/// Whether every character of a text takes one byte.
pub open spec fn plain(q: Seq<char>) -> bool {
    forall|i: int| 0 <= i < q.len() ==> (#[trigger] q[i]) as u32 <= 127
}

/// The keys that the search for texts at most one edit away comes to: all of them for a plain
/// text, and for another text those that the automaton accepts.
pub open spec fn reached(q: Seq<char>) -> spec_fn(Seq<u8>) -> bool {
    |k: Seq<u8>| near(q)(k) && (plain(q) || levenshtein_accepts(q, k))
}

/// Whether the keys of a list of pairs stand in strictly rising order.
pub open spec fn rising(s: Seq<(Seq<char>, u64)>) -> bool {
    forall|i: int, j: int|
        0 <= i < j < s.len() ==> text_before((#[trigger] s[i]).0, (#[trigger] s[j]).0)
}

/// The pairs of a list, seen as texts and numbers.
pub open spec fn text_pairs(v: Seq<(String, u64)>) -> Seq<(Seq<char>, u64)> {
    v.map_values(|p: (String, u64)| (p.0@, p.1))
}

/// The map that a list of pairs with distinct keys stands for.
pub open spec fn map_of(s: Seq<(Seq<char>, u64)>) -> Map<Seq<u8>, u64>
    decreases s.len(),
{
    if s.len() == 0 {
        Map::empty()
    } else {
        map_of(s.drop_last()).insert(encode_utf8(s.last().0), s.last().1)
    }
}

/// `fst::Map::new` reads a map out of bytes. It takes a whole transducer, and the map is read
/// from the bytes given. Which other bytes it takes is only named, and nothing is claimed of
/// such a map.
#[verifier::external_body]
pub(crate) fn fst_new(bytes: Vec<u8>) -> (r: Result<fst::Map<Vec<u8>>, fst::Error>)
    ensures
        r is Ok <==> fst_accepts(bytes@),
        fst_whole(bytes@) ==> r is Ok,
        r matches Ok(m) ==> fst_bytes(m) == bytes@,
{
    fst::Map::new(bytes)
}

/// `fst::Map::from_iter` builds a map out of pairs. It succeeds exactly on keys in strictly
/// rising byte order, and the map holds those pairs and nothing else.
#[verifier::external_body]
pub(crate) fn fst_from_pairs(pairs: &Vec<(String, u64)>) -> (r: Result<
    fst::Map<Vec<u8>>,
    fst::Error,
>)
    ensures
        r is Ok <==> rising(text_pairs(pairs@)),
        r matches Ok(m) ==> fst_whole(fst_bytes(m)),
        r matches Ok(m) ==> fst_entries(fst_bytes(m)) == map_of(text_pairs(pairs@)),
{
    fst::Map::from_iter(pairs.iter().map(|p| (p.0.as_bytes(), p.1)))
}

/// `fst::raw::Fst::into_inner` gives back the bytes that a map is read from.
#[verifier::external_body]
pub(crate) fn fst_into_bytes(m: fst::Map<Vec<u8>>) -> (r: Vec<u8>)
    ensures
        r@ == fst_bytes(m),
{
    m.into_fst().into_inner()
}

/// `fst::Map::get` finds the value under a key.
#[verifier::external_body]
pub(crate) fn fst_get(m: &fst::Map<Vec<u8>>, key: &str) -> (r: Option<u64>)
    requires
        fst_whole(fst_bytes(*m)),
    ensures
        r == (if fst_entries(fst_bytes(*m)).contains_key(encode_utf8(key@)) {
            Some(fst_entries(fst_bytes(*m))[encode_utf8(key@)])
        } else {
            None
        }),
{
    m.get(key)
}

/// `fst::Map::search` with the automaton of `fst::automaton::Str` and `starts_with` lists
/// the entries whose keys begin with a text, in the order of their keys.
#[verifier::external_body]
pub(crate) fn fst_prefixed(m: &fst::Map<Vec<u8>>, prefix: &str) -> (r: Vec<(Vec<u8>, u64)>)
    requires
        fst_whole(fst_bytes(*m)),
    ensures
        lists(pairs_of(r@), fst_entries(fst_bytes(*m)), beginning_with(prefix@)),
{
    m.search(fst::automaton::Str::new(prefix).starts_with()).into_stream().into_byte_vec()
}

/// `fst::Map::search` with a `fst::automaton::Levenshtein` of distance one lists entries whose
/// keys are texts at most one edit away, in the order of their keys: all of them where every
/// character of the query takes one byte. The automaton has room for only one character of the
/// query behind each first byte of several, so for other queries some may be missing; which, is
/// only named. There is no list where the automaton would pass the size limit of the crate;
/// when that is, is only named too.
#[verifier::external_body]
pub(crate) fn fst_near(m: &fst::Map<Vec<u8>>, query: &str) -> (r: Option<Vec<(Vec<u8>, u64)>>)
    requires
        fst_whole(fst_bytes(*m)),
    ensures
        r is None <==> levenshtein_too_big(query@),
        r matches Some(v) ==> lists(pairs_of(v@), fst_entries(fst_bytes(*m)), reached(query@)),
        r matches Some(v) ==> plain(query@) || forall|i: int|
            0 <= i < v@.len() ==> levenshtein_accepts(query@, (#[trigger] v@[i]).0@),
{
    let lev = fst::automaton::Levenshtein::new(query, 1).ok()?;
    Some(m.search(lev).into_stream().into_byte_vec())
}

pub proof fn lemma_bytes_order(a: Seq<u8>, b: Seq<u8>)
    ensures
        !bytes_before(a, a),
        bytes_before(a, b) ==> !bytes_before(b, a) && a != b,
        a != b && !bytes_before(a, b) ==> bytes_before(b, a),
    decreases a.len(),
{
    if a.len() > 0 {
        lemma_bytes_order(a.drop_first(), a.drop_first());
        if b.len() > 0 && a[0] == b[0] {
            lemma_bytes_order(a.drop_first(), b.drop_first());
            if a.drop_first() == b.drop_first() {
                assert(a =~= seq![a[0]] + a.drop_first());
                assert(b =~= seq![b[0]] + b.drop_first());
            }
        }
    } else if b.len() == 0 {
        assert(a =~= b);
    }
}

pub proof fn lemma_bytes_order_transitive(a: Seq<u8>, b: Seq<u8>, c: Seq<u8>)
    requires
        bytes_before(a, b),
        bytes_before(b, c),
    ensures
        bytes_before(a, c),
    decreases a.len(),
{
    if a.len() > 0 && a[0] == b[0] && b[0] == c[0] {
        lemma_bytes_order_transitive(a.drop_first(), b.drop_first(), c.drop_first());
    }
}

/// There is only one list of the wanted entries of a map.
pub proof fn lemma_listing_is_unique(
    s: Seq<(Seq<u8>, u64)>,
    t: Seq<(Seq<u8>, u64)>,
    m: Map<Seq<u8>, u64>,
    wanted: spec_fn(Seq<u8>) -> bool,
)
    requires
        lists(s, m, wanted),
        lists(t, m, wanted),
    ensures
        s == t,
    decreases s.len(),
{
    if s.len() == 0 {
        if t.len() > 0 {
            assert(m.contains_key(t[0].0) && wanted(t[0].0));
        }
        assert(s =~= t);
    } else if t.len() == 0 {
        assert(m.contains_key(s[0].0) && wanted(s[0].0));
    } else {
        let a = s.last().0;
        let b = t.last().0;
        assert(m.contains_key(a) && wanted(a));
        assert(m.contains_key(b) && wanted(b));
        let i = choose|i: int| 0 <= i < t.len() && (#[trigger] t[i]).0 == a;
        let j = choose|j: int| 0 <= j < s.len() && (#[trigger] s[j]).0 == b;
        lemma_bytes_order(a, b);
        lemma_bytes_order(a, a);
        assert(a == b) by {
            if a != b {
                assert(i < t.len() - 1);
                assert(bytes_before(t[i].0, t[t.len() - 1].0));
                assert(j < s.len() - 1);
                assert(bytes_before(s[j].0, s[s.len() - 1].0));
            }
        }
        let rest = |k: Seq<u8>| wanted(k) && k != a;
        let s1 = s.drop_last();
        let t1 = t.drop_last();
        assert forall|x: int| 0 <= x < s1.len() implies (#[trigger] s1[x]).0 != a by {
            assert(bytes_before(s[x].0, s[s.len() - 1].0));
        }
        assert forall|x: int| 0 <= x < t1.len() implies (#[trigger] t1[x]).0 != a by {
            assert(bytes_before(t[x].0, t[t.len() - 1].0));
        }
        assert forall|k: Seq<u8>| #[trigger] m.contains_key(k) && rest(k) implies exists|x: int|
            0 <= x < s1.len() && (#[trigger] s1[x]).0 == k by {
            let x = choose|x: int| 0 <= x < s.len() && (#[trigger] s[x]).0 == k;
            assert(s1[x].0 == k);
        }
        assert forall|k: Seq<u8>| #[trigger] m.contains_key(k) && rest(k) implies exists|x: int|
            0 <= x < t1.len() && (#[trigger] t1[x]).0 == k by {
            let x = choose|x: int| 0 <= x < t.len() && (#[trigger] t[x]).0 == k;
            assert(t1[x].0 == k);
        }
        lemma_listing_is_unique(s1, t1, m, rest);
        assert(s =~= s1.push(s.last()));
        assert(t =~= t1.push(t.last()));
    }
}

/// The list of the wanted entries of a map.
pub open spec fn listing(m: Map<Seq<u8>, u64>, wanted: spec_fn(Seq<u8>) -> bool) -> Seq<
    (Seq<u8>, u64),
> {
    choose|s: Seq<(Seq<u8>, u64)>| lists(s, m, wanted)
}

pub proof fn lemma_is_listing(
    s: Seq<(Seq<u8>, u64)>,
    m: Map<Seq<u8>, u64>,
    wanted: spec_fn(Seq<u8>) -> bool,
)
    requires
        lists(s, m, wanted),
    ensures
        listing(m, wanted) == s,
{
    lemma_listing_is_unique(listing(m, wanted), s, m, wanted);
}

/// Whether one byte string comes before another.
pub fn bytes_lt(a: &[u8], b: &[u8]) -> (r: bool)
    ensures
        r == bytes_before(a@, b@),
{
    let mut i: usize = 0;
    proof {
        assert(a@.skip(0) =~= a@);
        assert(b@.skip(0) =~= b@);
    }
    loop
        invariant
            i <= a.len(),
            i <= b.len(),
            bytes_before(a@, b@) == bytes_before(a@.skip(i as int), b@.skip(i as int)),
        decreases a.len() - i,
    {
        if i >= b.len() {
            return false;
        }
        if i >= a.len() {
            return true;
        }
        if a[i] != b[i] {
            return a[i] < b[i];
        }
        proof {
            assert(a@.skip(i as int).drop_first() =~= a@.skip(i + 1));
            assert(b@.skip(i as int).drop_first() =~= b@.skip(i + 1));
        }
        i = i + 1;
    }
}

/// Whether one text comes before another, byte by byte.
pub fn text_lt(a: &str, b: &str) -> (r: bool)
    ensures
        r == text_before(a@, b@),
{
    bytes_lt(a.as_bytes(), b.as_bytes())
}

} // verus!
