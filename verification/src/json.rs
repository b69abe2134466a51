//! JSON trees, and how configuration pages are merged and taken apart.

use vstd::prelude::*;
use crate::strmap;
use crate::strmap::StrMap;

verus! {

/// A JSON value. A number is kept as it is written, with its value where that is a natural
/// number of 64 bits.
pub enum Json {
    Null,
    Bool(bool),
    Number(String, Option<u64>),
    Text(String),
    Array(Vec<Json>),
    Object(Vec<(String, Json)>),
}

/// A JSON value as a tree.
pub enum JsonView {
    Null,
    Bool(bool),
    Number(Seq<char>, Option<u64>),
    Text(Seq<char>),
    Array(Seq<JsonView>),
    Object(Seq<(Seq<char>, JsonView)>),
}

impl Json {
    pub open spec fn tree(self) -> JsonView
        decreases self,
    {
        match self {
            Json::Null => JsonView::Null,
            Json::Bool(b) => JsonView::Bool(b),
            Json::Number(s, n) => JsonView::Number(s@, n),
            Json::Text(s) => JsonView::Text(s@),
            Json::Array(v) => JsonView::Array(
                Seq::new(
                    v@.len(),
                    |i: int|
                        if 0 <= i < v@.len() {
                            v@[i].tree()
                        } else {
                            JsonView::Null
                        },
                ),
            ),
            Json::Object(v) => JsonView::Object(
                Seq::new(
                    v@.len(),
                    |i: int|
                        if 0 <= i < v@.len() {
                            (v@[i].0@, v@[i].1.tree())
                        } else {
                            (Seq::empty(), JsonView::Null)
                        },
                ),
            ),
        }
    }
}

impl View for Json {
    type V = JsonView;

    open spec fn view(&self) -> JsonView {
        self.tree()
    }
}


#[verifier::external_type_specification]
#[verifier::external_body]
pub struct ExJsonValue(serde_json::Value);

/// The value that `serde_json::from_slice` reads out of bytes, if they hold one.
pub uninterp spec fn json_parsed(bytes: Seq<u8>) -> Option<serde_json::Value>;

/// The tree of a value of the `serde_json` crate.
pub uninterp spec fn value_tree(v: serde_json::Value) -> JsonView;

/// `serde_json::from_slice` reads a value out of bytes, or fails. What it reads is named.
#[verifier::external_body]
fn json_from_slice(bytes: &[u8]) -> (r: Option<serde_json::Value>)
    ensures
        r == json_parsed(bytes@),
{
    serde_json::from_slice(bytes).ok()
}

/// The variants and fields of a `serde_json::Value`, one for one, with `Number::to_string` and
/// `Number::as_u64` for a number. The tree that comes of them is named.
#[verifier::external_body]
fn json_tree(v: serde_json::Value) -> (r: Json)
    ensures
        r@ == value_tree(v),
{
    match v {
        serde_json::Value::Null => Json::Null,
        serde_json::Value::Bool(b) => Json::Bool(b),
        serde_json::Value::Number(n) => Json::Number(n.to_string(), n.as_u64()),
        serde_json::Value::String(s) => Json::Text(s),
        serde_json::Value::Array(a) => Json::Array(a.into_iter().map(json_tree).collect()),
        serde_json::Value::Object(m) => Json::Object(
            m.into_iter().map(|e| (e.0, json_tree(e.1))).collect(),
        ),
    }
}

/// The tree in bytes, if they hold a value.
pub open spec fn tree_in(bytes: Seq<u8>) -> Option<JsonView> {
    match json_parsed(bytes) {
        Some(v) => Some(value_tree(v)),
        None => None,
    }
}

/// Reads the tree in bytes.
pub fn parse_tree(bytes: &[u8]) -> (r: Option<Json>)
    ensures
        r is Some <==> tree_in(bytes@) is Some,
        r matches Some(j) ==> tree_in(bytes@) == Some(j@),
{
    match json_from_slice(bytes) {
        Some(v) => Some(json_tree(v)),
        None => None,
    }
}

/// The members of an object, seen as texts and trees.
pub open spec fn members(v: Seq<(String, Json)>) -> Seq<(Seq<char>, JsonView)> {
    v.map_values(|e: (String, Json)| (e.0@, e.1@))
}

pub proof fn lemma_object_tree(v: Vec<(String, Json)>)
    ensures
        Json::Object(v)@ == JsonView::Object(members(v@)),
{
    assert(Json::Object(v)@->Object_0 =~= members(v@));
}

pub proof fn lemma_array_tree(v: Vec<Json>)
    ensures
        Json::Array(v)@ == JsonView::Array(v@.map_values(|e: Json| e@)),
{
    assert(Json::Array(v)@->Array_0 =~= v@.map_values(|e: Json| e@));
}

/// A patch laid over a value: objects are merged member by member, anything else is
/// replaced.
pub open spec fn merge(base: JsonView, patch: JsonView) -> JsonView
    decreases patch, 0nat,
{
    match (base, patch) {
        (JsonView::Object(b), JsonView::Object(p)) => JsonView::Object(merge_members(b, p, p.len())),
        _ => patch,
    }
}

/// The members of an object after the first `n` members of a patch were laid over them.
pub open spec fn merge_members(
    b: Seq<(Seq<char>, JsonView)>,
    p: Seq<(Seq<char>, JsonView)>,
    n: nat,
) -> Seq<(Seq<char>, JsonView)>
    decreases p, n,
{
    if n == 0 || n > p.len() {
        b
    } else {
        let done = merge_members(b, p, (n - 1) as nat);
        let k = p[n - 1].0;
        let v = p[n - 1].1;
        match strmap::lookup(done, k) {
            Some(old) => strmap::put(done, k, merge(old, v)),
            None => strmap::put(done, k, v),
        }
    }
}


/// Lays a patch over a value.
pub fn deep_merge(base: Json, patch: Json) -> (r: Json)
    ensures
        r@ == merge(base@, patch@),
    decreases patch,
{
    match patch {
        Json::Object(p) => match base {
            Json::Object(b) => {
                proof {
                    lemma_object_tree(b);
                    lemma_object_tree(p);
                }
                let ghost bv = members(b@);
                let ghost ps = p@;
                let ghost pv = members(ps);
                let ghost whole = patch;
                let mut rest = p;
                let mut m = StrMap { entries: b };
                let ghost mut n: nat = 0;
                proof {
                    assert(m@ =~= bv);
                    assert(ps.skip(0) =~= ps);
                }
                while rest.len() > 0
                    invariant
                        n <= ps.len(),
                        rest@ == ps.skip(n as int),
                        pv == members(ps),
                        ps == p@,
                        whole == Json::Object(p),
                        whole == patch,
                        m@ == merge_members(bv, pv, n),
                    decreases rest@.len(),
                {
                    let (k, v) = rest.remove(0);
                    proof {
                        assert(ps.skip(n as int)[0] == ps[n as int]);
                        assert(v == p@[n as int].1);
                        assert(decreases_to!(whole => whole->Object_0));
                        assert(decreases_to!(p => p@));
                        assert(decreases_to!(p@ => p@[n as int]));
                        assert(decreases_to!(p@[n as int] => p@[n as int].1));
                        assert(decreases_to!(whole => v));
                        assert(ps.skip(n as int).remove(0) =~= ps.skip(n as int + 1));
                        assert(pv[n as int] == (k@, v@));
                        n = n + 1;
                    }
                    match m.position(k.as_str()) {
                        Some(i) => {
                            let ghost before = m@;
                            let (k0, old_value) = m.entries.remove(i);
                            proof {
                                assert(before[i as int] == (k0@, old_value@));
                            }
                            let ghost ov = old_value@;
                            let new_value = deep_merge(old_value, v);
                            m.entries.insert(i, (k0, new_value));
                            proof {
                                assert(m@ =~= strmap::put(before, k@, merge(ov, v@)));
                            }
                        },
                        None => {
                            m.insert(k, v);
                        },
                    }
                }
                let out = m.entries;
                proof {
                    lemma_object_tree(out);
                    assert(members(out@) =~= m@);
                }
                Json::Object(out)
            },
            _ => Json::Object(p),
        },
        other => other,
    }
}


/// The value of a member of an object.
pub open spec fn member(v: JsonView, k: Seq<char>) -> Option<JsonView> {
    match v {
        JsonView::Object(m) => strmap::lookup(m, k),
        _ => None,
    }
}

/// After a merge of objects, a member that the patch does not name is as before, and one that
/// it names once is the patch's, merged into the old one where there was one.
pub proof fn law_merge_by_member(
    b: Seq<(Seq<char>, JsonView)>,
    p: Seq<(Seq<char>, JsonView)>,
    k: Seq<char>,
)
    requires
        strmap::keys_distinct(p),
    ensures
        member(merge(JsonView::Object(b), JsonView::Object(p)), k) == (match strmap::lookup(p, k) {
            None => strmap::lookup(b, k),
            Some(v) => match strmap::lookup(b, k) {
                None => Some(v),
                Some(old) => Some(merge(old, v)),
            },
        }),
{
    lemma_merge_members_lookup(b, p, p.len(), k);
    strmap::lemma_index(p, k);
    let i = strmap::index_of(p, k);
    if i >= 0 {
        assert(p.take(p.len() as int) =~= p);
    }
}

proof fn lemma_merge_members_lookup(
    b: Seq<(Seq<char>, JsonView)>,
    p: Seq<(Seq<char>, JsonView)>,
    n: nat,
    k: Seq<char>,
)
    requires
        strmap::keys_distinct(p),
        n <= p.len(),
    ensures
        strmap::lookup(merge_members(b, p, n), k) == (if 0 <= strmap::index_of(p, k) < n {
            let v = p[strmap::index_of(p, k)].1;
            match strmap::lookup(b, k) {
                None => Some(v),
                Some(old) => Some(merge(old, v)),
            }
        } else {
            strmap::lookup(b, k)
        }),
    decreases n,
{
    strmap::lemma_index(p, k);
    if n > 0 {
        let m = (n - 1) as nat;
        lemma_merge_members_lookup(b, p, m, k);
        let done = merge_members(b, p, m);
        let k2 = p[n - 1].0;
        let v = p[n - 1].1;
        strmap::lemma_index(p, k2);
        let nv = match strmap::lookup(done, k2) {
            Some(old) => merge(old, v),
            None => v,
        };
        strmap::law_put_lookup(done, k2, nv, k);
        if k == k2 {
            assert(strmap::is_first(p, k, n - 1));
            strmap::lemma_first_is_index(p, k, n - 1);
        }
    }
}

impl Json {
    /// A copy of the value.
    pub fn copy(&self) -> (r: Json)
        ensures
            r@ == self@,
        decreases self,
    {
        match self {
            Json::Null => Json::Null,
            Json::Bool(b) => Json::Bool(*b),
            Json::Number(s, n) => Json::Number(s.clone(), *n),
            Json::Text(s) => Json::Text(s.clone()),
            Json::Array(v) => {
                let mut out: Vec<Json> = Vec::new();
                let mut i: usize = 0;
                while i < v.len()
                    invariant
                        i <= v.len(),
                        *self == Json::Array(*v),
                        out@.len() == i,
                        forall|j: int| 0 <= j < i ==> (#[trigger] out@[j])@ == v@[j]@,
                    decreases v.len() - i,
                {
                    proof {
                        assert(decreases_to!(self => self->Array_0));
                        assert(decreases_to!(v => v@));
                        assert(decreases_to!(v@ => v@[i as int]));
                    }
                    let c = v[i].copy();
                    out.push(c);
                    i = i + 1;
                }
                proof {
                    lemma_array_tree(*v);
                    lemma_array_tree(out);
                    assert(out@.map_values(|e: Json| e@) =~= v@.map_values(|e: Json| e@));
                }
                Json::Array(out)
            },
            Json::Object(v) => {
                let mut out: Vec<(String, Json)> = Vec::new();
                let mut i: usize = 0;
                while i < v.len()
                    invariant
                        i <= v.len(),
                        *self == Json::Object(*v),
                        out@.len() == i,
                        forall|j: int|
                            0 <= j < i ==> (#[trigger] out@[j]).0@ == v@[j].0@ && out@[j].1@ == v@[j].1@,
                    decreases v.len() - i,
                {
                    proof {
                        assert(decreases_to!(self => self->Object_0));
                        assert(decreases_to!(v => v@));
                        assert(decreases_to!(v@ => v@[i as int]));
                        assert(decreases_to!(v@[i as int] => v@[i as int].1));
                    }
                    let c = v[i].1.copy();
                    out.push((v[i].0.clone(), c));
                    i = i + 1;
                }
                proof {
                    lemma_object_tree(*v);
                    lemma_object_tree(out);
                    assert(members(out@) =~= members(v@));
                }
                Json::Object(out)
            },
        }
    }

    /// The value of a member of an object.
    pub fn get(&self, k: &str) -> (r: Option<&Json>)
        ensures
            r is Some <==> member(self@, k@) is Some,
            r matches Some(v) ==> member(self@, k@) == Some(v@),
            r matches Some(v) ==> decreases_to!(self => *v),
    {
        match self {
            Json::Object(v) => {
                proof {
                    lemma_object_tree(*v);
                }
                let mut i: usize = 0;
                while i < v.len()
                    invariant
                        i <= v.len(),
                        *self == Json::Object(*v),
                        self@ == JsonView::Object(members(v@)),
                        forall|j: int| 0 <= j < i ==> (#[trigger] members(v@)[j]).0 != k@,
                    decreases v.len() - i,
                {
                    proof {
                        assert(members(v@)[i as int] == (v@[i as int].0@, v@[i as int].1@));
                    }
                    if crate::text::same_text(v[i].0.as_str(), k) {
                        proof {
                            strmap::lemma_first_is_index(members(v@), k@, i as int);
                            assert(decreases_to!(self => self->Object_0));
                            assert(decreases_to!(v => v@));
                            assert(decreases_to!(v@ => v@[i as int]));
                            assert(decreases_to!(v@[i as int] => v@[i as int].1));
                        }
                        return Some(&v[i].1);
                    }
                    i = i + 1;
                }
                proof {
                    strmap::lemma_absent(members(v@), k@);
                }
                None
            },
            _ => None,
        }
    }

    /// The text of a value that is one.
    pub fn as_str(&self) -> (r: Option<&str>)
        ensures
            r is Some <==> self@ is Text,
            r matches Some(s) ==> self@ == JsonView::Text(s@),
    {
        match self {
            Json::Text(s) => Some(s.as_str()),
            _ => None,
        }
    }
}

/// The first `n` of the given members of an object, where it has them.
pub open spec fn picked(
    m: Seq<(Seq<char>, JsonView)>,
    keys: Seq<Seq<char>>,
    n: nat,
) -> Seq<(Seq<char>, JsonView)>
    decreases n,
{
    if n == 0 || n > keys.len() {
        Seq::empty()
    } else {
        let done = picked(m, keys, (n - 1) as nat);
        match strmap::lookup(m, keys[n - 1]) {
            Some(v) => strmap::put(done, keys[n - 1], v),
            None => done,
        }
    }
}

/// The given members of an object; of anything else, null.
pub open spec fn pick(v: JsonView, keys: Seq<Seq<char>>) -> JsonView {
    match v {
        JsonView::Object(m) => JsonView::Object(picked(m, keys, keys.len())),
        _ => JsonView::Null,
    }
}

/// The members of an object without the first `n` of the given ones.
pub open spec fn dropped(
    m: Seq<(Seq<char>, JsonView)>,
    keys: Seq<Seq<char>>,
    n: nat,
) -> Seq<(Seq<char>, JsonView)>
    decreases n,
{
    if n == 0 || n > keys.len() {
        m
    } else {
        strmap::discard(dropped(m, keys, (n - 1) as nat), keys[n - 1])
    }
}

/// An object without the given members; anything else as it is.
pub open spec fn without(v: JsonView, keys: Seq<Seq<char>>) -> JsonView {
    match v {
        JsonView::Object(m) => JsonView::Object(dropped(m, keys, keys.len())),
        _ => v,
    }
}

/// The texts of a list of keys.
pub open spec fn key_texts(keys: Seq<&str>) -> Seq<Seq<char>> {
    keys.map_values(|k: &str| k@)
}

/// Takes the given members out of an object, as an object of their own.
pub fn pick_keys(value: &Json, keys: &[&str]) -> (r: Json)
    ensures
        r@ == pick(value@, key_texts(keys@)),
{
    match value {
        Json::Object(v) => {
            proof {
                lemma_object_tree(*v);
            }
            let mut out: StrMap<Json> = StrMap::new();
            let mut i: usize = 0;
            while i < keys.len()
                invariant
                    i <= keys.len(),
                    value@ == JsonView::Object(members(v@)),
                    out@ == picked(members(v@), key_texts(keys@), i as nat),
                decreases keys.len() - i,
            {
                match value.get(keys[i]) {
                    Some(x) => {
                        let c = x.copy();
                        out.insert(keys[i].to_owned(), c);
                    },
                    None => {},
                }
                i = i + 1;
            }
            let entries = out.entries;
            proof {
                lemma_object_tree(entries);
                assert(members(entries@) =~= out@);
            }
            Json::Object(entries)
        },
        _ => Json::Null,
    }
}

/// Removes the given members from an object.
pub fn remove_keys(value: Json, keys: &[&str]) -> (r: Json)
    ensures
        r@ == without(value@, key_texts(keys@)),
{
    match value {
        Json::Object(v) => {
            proof {
                lemma_object_tree(v);
            }
            let ghost mv = members(v@);
            let mut m = StrMap { entries: v };
            let mut i: usize = 0;
            proof {
                assert(m@ =~= mv);
            }
            while i < keys.len()
                invariant
                    i <= keys.len(),
                    m@ == dropped(mv, key_texts(keys@), i as nat),
                decreases keys.len() - i,
            {
                m.remove(keys[i]);
                i = i + 1;
            }
            let entries = m.entries;
            proof {
                lemma_object_tree(entries);
                assert(members(entries@) =~= m@);
            }
            Json::Object(entries)
        },
        other => other,
    }
}

} // verus!
