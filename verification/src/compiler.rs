//! Compiling dictionaries: from source entries to an index and a data file.

use vstd::prelude::*;
use vstd::utf8::*;
use crate::index;
use crate::index::{fst_from_pairs, fst_into_bytes, text_lt};
use crate::order::sort_stable;
use crate::strmap::StrMap;
use crate::tables::WordSet;
use crate::text;
use crate::trie;
use crate::trie::{Entry, Trie, TrieView};

verus! {

/// The flag of a rare word.
pub const FLAG_RARE: u8 = 1;

/// An entry of a dictionary in the making.
pub struct DictEntry {
    pub word: String,
    pub trad: String,
    pub tone: String,
    pub en: String,
    pub stroke_aux: String,
    pub weight: u32,
    pub flags: u8,
}

impl View for DictEntry {
    type V = Entry;

    open spec fn view(&self) -> Entry {
        Entry {
            word: self.word@,
            trad: self.trad@,
            tone: self.tone@,
            en: self.en@,
            stroke_aux: self.stroke_aux@,
            weight: self.weight,
            flags: self.flags,
        }
    }
}

/// The entries under one key.
pub struct EntryList {
    pub items: Vec<DictEntry>,
}

impl View for EntryList {
    type V = Seq<Entry>;

    open spec fn view(&self) -> Seq<Entry> {
        self.items@.map_values(|e: DictEntry| e@)
    }
}

impl EntryList {
    /// No entries.
    pub fn new() -> (r: Self)
        ensures
            r@ == Seq::<Entry>::empty(),
    {
        let r = EntryList { items: Vec::new() };
        proof {
            assert(r@ =~= Seq::<Entry>::empty());
        }
        r
    }

    /// Appends an entry.
    pub fn push(&mut self, e: DictEntry)
        ensures
            final(self)@ == old(self)@.push(e@),
    {
        self.items.push(e);
        proof {
            assert(self@ =~= old(self)@.push(e@));
        }
    }
}

/// A dictionary in the making: entries under keys.
pub type DictSource = StrMap<EntryList>;

/// A number in two bytes, the low one first.
pub open spec fn two_bytes(n: int) -> Seq<u8> {
    seq![(n % 256) as u8, (n / 256 % 256) as u8]
}

/// A number in four bytes, the low one first.
pub open spec fn four_bytes(n: int) -> Seq<u8> {
    seq![
        (n % 256) as u8,
        (n / 256 % 256) as u8,
        (n / 65536 % 256) as u8,
        (n / 16777216 % 256) as u8,
    ]
}

/// A text as it stands in the data: two bytes of length, then its bytes.
pub open spec fn text_bytes(s: Seq<char>) -> Seq<u8> {
    two_bytes(text::byte_len(s) as int) + encode_utf8(s)
}

/// An entry as it stands in the data.
pub open spec fn entry_bytes(e: Entry) -> Seq<u8> {
    text_bytes(e.word) + text_bytes(e.trad) + text_bytes(e.tone) + text_bytes(e.en) + text_bytes(
        e.stroke_aux,
    ) + four_bytes(e.weight as int) + seq![e.flags]
}

/// Entries one after the other.
pub open spec fn entries_bytes(s: Seq<Entry>) -> Seq<u8>
    decreases s.len(),
{
    if s.len() == 0 {
        Seq::empty()
    } else {
        entry_bytes(s[0]) + entries_bytes(s.drop_first())
    }
}

/// The block of some entries: four bytes of count, then the entries.
pub open spec fn block_bytes(s: Seq<Entry>) -> Seq<u8> {
    four_bytes(s.len() as int) + entries_bytes(s)
}

/// The data of a dictionary: the header, then for each key the block of its entries, each
/// word once.
pub open spec fn data_bytes(d: Seq<(Seq<char>, Seq<Entry>)>) -> Seq<u8>
    decreases d.len(),
{
    if d.len() == 0 {
        trie::TRIE_MAGIC@ + four_bytes(trie::TRIE_VERSION as int)
    } else {
        data_bytes(d.drop_last()) + block_bytes(trie::fresh(d.last().1))
    }
}

/// The offsets of a dictionary: each key with the place of its block.
pub open spec fn offsets(d: Seq<(Seq<char>, Seq<Entry>)>) -> Seq<(Seq<char>, u64)>
    decreases d.len(),
{
    if d.len() == 0 {
        Seq::empty()
    } else {
        offsets(d.drop_last()).push((d.last().0, data_bytes(d.drop_last()).len() as u64))
    }
}

/// Whether the entry list of one key comes before that of another.
pub open spec fn key_before() -> spec_fn((Seq<char>, Seq<Entry>), (Seq<char>, Seq<Entry>)) -> bool {
    |a: (Seq<char>, Seq<Entry>), b: (Seq<char>, Seq<Entry>)| index::text_before(a.0, b.0)
}

/// A dictionary with its keys in order.
pub open spec fn by_key(d: Seq<(Seq<char>, Seq<Entry>)>) -> Seq<(Seq<char>, Seq<Entry>)> {
    crate::order::arranged(d, key_before())
}

/// Whether the texts of an entry can be stored: none is longer than 65535 bytes.
pub open spec fn storable(e: Entry) -> bool {
    &&& text::byte_len(e.word) <= 65535
    &&& text::byte_len(e.trad) <= 65535
    &&& text::byte_len(e.tone) <= 65535
    &&& text::byte_len(e.en) <= 65535
    &&& text::byte_len(e.stroke_aux) <= 65535
}

/// Appends a number as two bytes.
fn put_u16(out: &mut Vec<u8>, n: usize)
    ensures
        final(out)@ == old(out)@ + two_bytes(n as int),
{
    out.push((n % 256) as u8);
    out.push((n / 256 % 256) as u8);
    proof {
        assert(out@ =~= old(out)@ + two_bytes(n as int));
    }
}

/// Appends a number as four bytes.
fn put_u32(out: &mut Vec<u8>, n: usize)
    ensures
        final(out)@ == old(out)@ + four_bytes(n as int),
{
    out.push((n % 256) as u8);
    out.push((n / 256 % 256) as u8);
    out.push((n / 65536 % 256) as u8);
    out.push((n / 16777216 % 256) as u8);
    proof {
        assert(out@ =~= old(out)@ + four_bytes(n as int));
    }
}

/// Appends bytes.
fn put_bytes(out: &mut Vec<u8>, b: &[u8])
    ensures
        final(out)@ == old(out)@ + b@,
{
    let ghost start = out@;
    let mut i: usize = 0;
    proof {
        assert(start + b@.take(0) =~= start);
    }
    while i < b.len()
        invariant
            i <= b.len(),
            out@ == start + b@.take(i as int),
        decreases b.len() - i,
    {
        proof {
            assert((start + b@.take(i as int)).push(b@[i as int]) =~= start + b@.take(i + 1));
        }
        out.push(b[i]);
        i = i + 1;
    }
    proof {
        assert(b@.take(b@.len() as int) =~= b@);
    }
}

/// Appends a text with its length.
fn put_text(out: &mut Vec<u8>, s: &str)
    ensures
        final(out)@ == old(out)@ + text_bytes(s@),
{
    let b = s.as_bytes();
    put_u16(out, b.len());
    put_bytes(out, b);
    proof {
        assert(out@ =~= old(out)@ + text_bytes(s@));
    }
}

/// Appends an entry.
fn put_entry(out: &mut Vec<u8>, e: &DictEntry)
    ensures
        final(out)@ == old(out)@ + entry_bytes(e@),
{
    put_text(out, e.word.as_str());
    put_text(out, e.trad.as_str());
    put_text(out, e.tone.as_str());
    put_text(out, e.en.as_str());
    put_text(out, e.stroke_aux.as_str());
    put_u32(out, e.weight as usize);
    out.push(e.flags);
    proof {
        assert(out@ =~= old(out)@ + entry_bytes(e@));
    }
}

/// The index file and the data file of a dictionary.
pub struct CompiledDict {
    pub index: Vec<u8>,
    pub data: Vec<u8>,
}


/// The words of a list without those that occurred before.
fn keep_fresh(list: &EntryList) -> (r: Vec<usize>)
    ensures
        forall|i: int| 0 <= i < r@.len() ==> #[trigger] r@[i] < list@.len(),
        r@.map_values(|i: usize| list@[i as int]) == trie::fresh(list@),
{
    let mut keep: Vec<usize> = Vec::new();
    let mut seen = WordSet::new();
    let ghost s = list@;
    let ghost pick = |i: usize| s[i as int];
    let mut i: usize = 0;
    proof {
        assert(s.take(0) =~= Seq::<Entry>::empty());
        assert(keep@.map_values(pick) =~= Seq::<Entry>::empty());
    }
    while i < list.items.len()
        invariant
            i <= list.items.len(),
            s == list@,
            pick == (|i: usize| s[i as int]),
            forall|k: int| 0 <= k < keep@.len() ==> #[trigger] keep@[k] < i,
            keep@.map_values(pick) == trie::fresh(s.take(i as int)),
            forall|w: Seq<char>| seen@.contains(w) <==> trie::has_word(s.take(i as int), w),
        decreases list.items.len() - i,
    {
        let ghost was = s.take(i as int);
        let ghost now = s.take(i + 1);
        let ghost e = s[i as int];
        proof {
            assert(now.drop_last() =~= was);
            assert(now.last() == e);
            assert forall|w: Seq<char>| trie::has_word(now, w) <==> trie::has_word(was, w) || w == e.word by {
                if trie::has_word(was, w) {
                    let x = choose|x: int| 0 <= x < was.len() && (#[trigger] was[x]).word == w;
                    assert(now[x].word == w);
                }
                if w == e.word {
                    assert(now[now.len() - 1].word == w);
                }
                if trie::has_word(now, w) && w != e.word {
                    let x = choose|x: int| 0 <= x < now.len() && (#[trigger] now[x]).word == w;
                    assert(was[x].word == w);
                }
            }
        }
        if seen.insert(list.items[i].word.clone()) {
            proof {
                assert(keep@.push(i).map_values(pick) =~= keep@.map_values(pick).push(e));
            }
            keep.push(i);
        }
        i = i + 1;
    }
    proof {
        assert(s.take(s.len() as int) =~= s);
    }
    keep
}

proof fn lemma_entries_bytes_push(s: Seq<Entry>, e: Entry)
    ensures
        entries_bytes(s.push(e)) == entries_bytes(s) + entry_bytes(e),
    decreases s.len(),
{
    if s.len() == 0 {
        assert(s.push(e).drop_first() =~= Seq::<Entry>::empty());
        assert(entries_bytes(Seq::<Entry>::empty()) =~= Seq::<u8>::empty());
        assert(entry_bytes(e) + Seq::<u8>::empty() =~= Seq::<u8>::empty() + entry_bytes(e));
    } else {
        lemma_entries_bytes_push(s.drop_first(), e);
        assert(s.push(e).drop_first() =~= s.drop_first().push(e));
        assert(entry_bytes(s[0]) + (entries_bytes(s.drop_first()) + entry_bytes(e)) =~= (entry_bytes(
            s[0],
        ) + entries_bytes(s.drop_first())) + entry_bytes(e));
    }
}

/// Appends the block of a list, each word once.
fn put_block(out: &mut Vec<u8>, list: &EntryList)
    ensures
        final(out)@ == old(out)@ + block_bytes(trie::fresh(list@)),
{
    let ghost start = out@;
    let keep = keep_fresh(list);
    let ghost all = trie::fresh(list@);
    put_u32(out, keep.len());
    let mut i: usize = 0;
    proof {
        assert(all.take(0) =~= Seq::<Entry>::empty());
        assert(start + four_bytes(all.len() as int) + entries_bytes(all.take(0)) =~= start
            + four_bytes(all.len() as int));
    }
    while i < keep.len()
        invariant
            i <= keep.len(),
            all == keep@.map_values(|i: usize| list@[i as int]),
            forall|k: int| 0 <= k < keep@.len() ==> #[trigger] keep@[k] < list@.len(),
            out@ == start + four_bytes(all.len() as int) + entries_bytes(all.take(i as int)),
        decreases keep.len() - i,
    {
        let k = keep[i];
        put_entry(out, &list.items[k]);
        proof {
            let e = list@[k as int];
            assert(all[i as int] == e);
            assert(all.take(i + 1) =~= all.take(i as int).push(e));
            lemma_entries_bytes_push(all.take(i as int), e);
            assert(start + four_bytes(all.len() as int) + entries_bytes(all.take(i as int))
                + entry_bytes(e) =~= start + four_bytes(all.len() as int) + (entries_bytes(
                all.take(i as int),
            ) + entry_bytes(e)));
        }
        i = i + 1;
    }
    proof {
        assert(all.take(all.len() as int) =~= all);
        assert(out@ =~= start + block_bytes(all));
    }
}

/// Whether the key of one list comes before that of another.
fn key_lt(a: &(String, EntryList), b: &(String, EntryList)) -> (r: bool)
    ensures
        r == index::text_before(a.0@, b.0@),
{
    text_lt(a.0.as_str(), b.0.as_str())
}

/// A list of keys and entries, seen as texts and entries.
pub open spec fn source_view(v: Seq<(String, EntryList)>) -> Seq<(Seq<char>, Seq<Entry>)> {
    v.map_values(|p: (String, EntryList)| (p.0@, p.1@))
}

proof fn lemma_placed_source(x: (String, EntryList), s: Seq<(String, EntryList)>)
    ensures
        source_view(
            crate::order::placed(
                x,
                s,
                |a: (String, EntryList), b: (String, EntryList)| index::text_before(a.0@, b.0@),
            ),
        ) == crate::order::placed((x.0@, x.1@), source_view(s), key_before()),
    decreases s.len(),
{
    let before = |a: (String, EntryList), b: (String, EntryList)| index::text_before(a.0@, b.0@);
    if s.len() == 0 || !before(s[0], x) {
        assert(source_view(seq![x] + s) =~= seq![(x.0@, x.1@)] + source_view(s));
        if s.len() > 0 {
            assert(source_view(s)[0] == (s[0].0@, s[0].1@));
        }
    } else {
        lemma_placed_source(x, s.drop_first());
        assert(source_view(s)[0] == (s[0].0@, s[0].1@));
        assert(source_view(s.drop_first()) =~= source_view(s).drop_first());
        let t = crate::order::placed(x, s.drop_first(), before);
        assert(source_view(seq![s[0]] + t) =~= seq![(s[0].0@, s[0].1@)] + source_view(t));
    }
}

proof fn lemma_arranged_source(s: Seq<(String, EntryList)>)
    ensures
        source_view(
            crate::order::arranged(
                s,
                |a: (String, EntryList), b: (String, EntryList)| index::text_before(a.0@, b.0@),
            ),
        ) == by_key(source_view(s)),
    decreases s.len(),
{
    let before = |a: (String, EntryList), b: (String, EntryList)| index::text_before(a.0@, b.0@);
    if s.len() == 0 {
        assert(source_view(s) =~= Seq::<(Seq<char>, Seq<Entry>)>::empty());
    } else {
        lemma_arranged_source(s.drop_first());
        lemma_placed_source(s[0], crate::order::arranged(s.drop_first(), before));
        assert(source_view(s.drop_first()) =~= source_view(s).drop_first());
        assert(source_view(s)[0] == (s[0].0@, s[0].1@));
    }
}

/// Compiles a dictionary. It fails where a key occurs twice.
pub fn write_binary_dict(entries: DictSource) -> (r: Option<CompiledDict>)
    ensures
        r is Some <==> index::rising(offsets(by_key(entries@))),
        r matches Some(c) ==> c.data@ == data_bytes(by_key(entries@)),
        r matches Some(c) ==> index::fst_whole(c.index@) && index::fst_entries(c.index@)
            == index::map_of(offsets(by_key(entries@))),
{
    let mut list = entries.entries;
    let ghost before = |a: (String, EntryList), b: (String, EntryList)|
        index::text_before(a.0@, b.0@);
    let ghost src = list@;
    sort_stable(&mut list, key_lt, Ghost(before));
    let ghost d = source_view(list@);
    proof {
        lemma_arranged_source(src);
        assert(source_view(src) =~= entries@);
    }
    let mut data: Vec<u8> = Vec::new();
    put_bytes(&mut data, &trie::TRIE_MAGIC);
    put_u32(&mut data, trie::TRIE_VERSION as usize);
    let mut pairs: Vec<(String, u64)> = Vec::new();
    let mut i: usize = 0;
    proof {
        assert(d.take(0) =~= Seq::<(Seq<char>, Seq<Entry>)>::empty());
        assert(data@ =~= data_bytes(d.take(0)));
        assert(index::text_pairs(pairs@) =~= offsets(d.take(0)));
    }
    while i < list.len()
        invariant
            i <= list.len(),
            d == source_view(list@),
            data@ == data_bytes(d.take(i as int)),
            index::text_pairs(pairs@) == offsets(d.take(i as int)),
        decreases list.len() - i,
    {
        let pair = (list[i].0.clone(), data.len() as u64);
        proof {
            assert(d.take(i + 1).drop_last() =~= d.take(i as int));
            assert(d.take(i + 1).last() == (list@[i as int].0@, list@[i as int].1@));
            assert(index::text_pairs(pairs@.push(pair)) =~= index::text_pairs(pairs@).push(
                (pair.0@, pair.1),
            ));
        }
        pairs.push(pair);
        put_block(&mut data, &list[i].1);
        i = i + 1;
    }
    proof {
        assert(d.take(d.len() as int) =~= d);
    }
    match fst_from_pairs(&pairs) {
        Ok(m) => Some(CompiledDict { index: fst_into_bytes(m), data }),
        Err(_) => None,
    }
}


/// Whether given bytes stand at a place of the data.
spec fn stands_at(d: Seq<u8>, c: int, b: Seq<u8>) -> bool {
    0 <= c && c + b.len() <= d.len() && d.subrange(c, c + b.len()) == b
}

proof fn lemma_stands_split(d: Seq<u8>, c: int, a: Seq<u8>, b: Seq<u8>)
    requires
        stands_at(d, c, a + b),
    ensures
        stands_at(d, c, a),
        stands_at(d, c + a.len(), b),
{
    let w = d.subrange(c, c + (a + b).len());
    assert forall|i: int| 0 <= i < a.len() implies d[c + i] == a[i] by {
        assert(w[i] == (a + b)[i]);
    }
    assert forall|i: int| 0 <= i < b.len() implies d[c + a.len() + i] == b[i] by {
        assert(w[a.len() + i] == (a + b)[a.len() + i]);
    }
    assert(d.subrange(c, c + a.len()) =~= a);
    assert(d.subrange(c + a.len(), c + a.len() + b.len()) =~= b);
}

proof fn lemma_text_reads_back(d: Seq<u8>, c: int, s: Seq<char>)
    requires
        stands_at(d, c, text_bytes(s)),
        text::byte_len(s) <= 65535,
    ensures
        trie::str_at(d, c) == Some((s, c + text_bytes(s).len())),
{
    let n = text::byte_len(s) as int;
    lemma_stands_split(d, c, two_bytes(n), encode_utf8(s));
    let h = d.subrange(c, c + 2);
    assert(h == two_bytes(n));
    assert(d[c] == h[0] && d[c + 1] == h[1]);
    assert(trie::u16_at(d, c) == n);
    encode_utf8_valid_utf8(s);
    encode_utf8_decode_utf8(s);
}

proof fn lemma_number_reads_back(d: Seq<u8>, c: int, n: int)
    requires
        stands_at(d, c, four_bytes(n)),
        0 <= n <= u32::MAX,
    ensures
        trie::u32_at(d, c) == n,
{
    let h = d.subrange(c, c + 4);
    assert(h == four_bytes(n));
    assert(d[c] == h[0] && d[c + 1] == h[1] && d[c + 2] == h[2] && d[c + 3] == h[3]);
}

proof fn lemma_tail_reads_back(d: Seq<u8>, c: int, weight: u32, flags: u8)
    requires
        stands_at(d, c, four_bytes(weight as int) + seq![flags]),
    ensures
        trie::tail_at(d, c) == Some((weight, flags, c + 5)),
{
    lemma_stands_split(d, c, four_bytes(weight as int), seq![flags]);
    lemma_number_reads_back(d, c, weight as int);
    assert(d.subrange(c + 4, c + 5)[0] == d[c + 4]);
}

/// An entry is read back as it was written.
proof fn lemma_entry_reads_back(d: Seq<u8>, c: int, e: Entry)
    requires
        stands_at(d, c, entry_bytes(e)),
        storable(e),
    ensures
        trie::entry_at(d, c) == Some((e, c + entry_bytes(e).len())),
{
    reveal(trie::entry_at);
    let t1 = text_bytes(e.word);
    let t2 = text_bytes(e.trad);
    let t3 = text_bytes(e.tone);
    let t4 = text_bytes(e.en);
    let t5 = text_bytes(e.stroke_aux);
    let w = four_bytes(e.weight as int);
    let tail = w + seq![e.flags];
    assert(entry_bytes(e) =~= t1 + (t2 + (t3 + (t4 + (t5 + tail)))));
    lemma_stands_split(d, c, t1, t2 + (t3 + (t4 + (t5 + tail))));
    lemma_text_reads_back(d, c, e.word);
    let c1 = c + t1.len();
    lemma_stands_split(d, c1, t2, t3 + (t4 + (t5 + tail)));
    lemma_text_reads_back(d, c1, e.trad);
    let c2 = c1 + t2.len();
    lemma_stands_split(d, c2, t3, t4 + (t5 + tail));
    lemma_text_reads_back(d, c2, e.tone);
    let c3 = c2 + t3.len();
    lemma_stands_split(d, c3, t4, t5 + tail);
    lemma_text_reads_back(d, c3, e.en);
    let c4 = c3 + t4.len();
    lemma_stands_split(d, c4, t5, tail);
    lemma_text_reads_back(d, c4, e.stroke_aux);
    lemma_tail_reads_back(d, c4 + t5.len(), e.weight, e.flags);
}

proof fn lemma_entries_read_back(d: Seq<u8>, c: int, s: Seq<Entry>)
    requires
        stands_at(d, c, entries_bytes(s)),
        forall|i: int| 0 <= i < s.len() ==> storable(#[trigger] s[i]),
    ensures
        trie::entries_from(d, c, s.len() as int) == s,
    decreases s.len(),
{
    if s.len() > 0 {
        let r = s.drop_first();
        lemma_stands_split(d, c, entry_bytes(s[0]), entries_bytes(r));
        lemma_entry_reads_back(d, c, s[0]);
        assert forall|i: int| 0 <= i < r.len() implies storable(#[trigger] r[i]) by {
            assert(r[i] == s[i + 1]);
        }
        lemma_entries_read_back(d, c + entry_bytes(s[0]).len(), r);
        assert(seq![s[0]] + r =~= s);
    } else {
        assert(trie::entries_from(d, c, 0) =~= s);
    }
}

proof fn lemma_block_reads_back(d: Seq<u8>, off: int, s: Seq<Entry>)
    requires
        stands_at(d, off, block_bytes(s)),
        forall|i: int| 0 <= i < s.len() ==> storable(#[trigger] s[i]),
        s.len() <= u32::MAX,
    ensures
        trie::block_at(d, off) == s,
{
    lemma_stands_split(d, off, four_bytes(s.len() as int), entries_bytes(s));
    assert(four_bytes(s.len() as int).len() == 4);
    lemma_number_reads_back(d, off, s.len() as int);
    lemma_entries_read_back(d, off + 4, s);
}

/// The block of each key stands where the offsets say.
proof fn lemma_block_stands(d: Seq<(Seq<char>, Seq<Entry>)>, i: int)
    requires
        0 <= i < d.len(),
    ensures
        stands_at(data_bytes(d), data_bytes(d.take(i)).len() as int, block_bytes(trie::fresh(d[i].1))),
    decreases d.len(),
{
    let head = data_bytes(d.drop_last());
    let tail = block_bytes(trie::fresh(d.last().1));
    if i == d.len() - 1 {
        assert(d.take(i) =~= d.drop_last());
        assert((head + tail).subrange(head.len() as int, (head.len() + tail.len()) as int) =~= tail);
    } else {
        lemma_block_stands(d.drop_last(), i);
        assert(d.drop_last().take(i) =~= d.take(i));
        let c = data_bytes(d.take(i)).len() as int;
        let b = block_bytes(trie::fresh(d[i].1));
        assert((head + tail).subrange(c, c + b.len()) =~= head.subrange(c, c + b.len()));
    }
}

proof fn lemma_offsets_len(d: Seq<(Seq<char>, Seq<Entry>)>)
    ensures
        offsets(d).len() == d.len(),
    decreases d.len(),
{
    if d.len() > 0 {
        lemma_offsets_len(d.drop_last());
    }
}

proof fn lemma_offsets(d: Seq<(Seq<char>, Seq<Entry>)>, i: int)
    requires
        0 <= i < d.len(),
    ensures
        offsets(d).len() == d.len(),
        offsets(d)[i] == (d[i].0, data_bytes(d.take(i)).len() as u64),
    decreases d.len(),
{
    lemma_offsets_len(d);
    lemma_offsets_len(d.drop_last());
    if i < d.len() - 1 {
        lemma_offsets(d.drop_last(), i);
        assert(d.drop_last().take(i) =~= d.take(i));
    } else {
        assert(d.take(i) =~= d.drop_last());
    }
}

proof fn lemma_map_of(s: Seq<(Seq<char>, u64)>)
    requires
        index::rising(s),
    ensures
        forall|i: int|
            0 <= i < s.len() ==> index::map_of(s).contains_key(encode_utf8((#[trigger] s[i]).0))
                && index::map_of(s)[encode_utf8(s[i].0)] == s[i].1,
        forall|k: Seq<u8>| #[trigger]
            index::map_of(s).contains_key(k) ==> exists|i: int|
                0 <= i < s.len() && encode_utf8((#[trigger] s[i]).0) == k,
    decreases s.len(),
{
    if s.len() > 0 {
        let r = s.drop_last();
        assert forall|i: int, j: int| 0 <= i < j < r.len() implies index::text_before(
            (#[trigger] r[i]).0,
            (#[trigger] r[j]).0,
        ) by {
            assert(r[i] == s[i] && r[j] == s[j]);
        }
        lemma_map_of(r);
        let last = encode_utf8(s.last().0);
        assert forall|i: int| 0 <= i < s.len() implies index::map_of(s).contains_key(
            encode_utf8((#[trigger] s[i]).0),
        ) && index::map_of(s)[encode_utf8(s[i].0)] == s[i].1 by {
            if i < s.len() - 1 {
                assert(r[i] == s[i]);
                assert(index::text_before(s[i].0, s[s.len() - 1].0));
                index::lemma_bytes_order(encode_utf8(s[i].0), last);
            }
        }
        assert forall|k: Seq<u8>| #[trigger] index::map_of(s).contains_key(k) implies exists|i: int|
            0 <= i < s.len() && encode_utf8((#[trigger] s[i]).0) == k by {
            if k == last {
                assert(encode_utf8(s[s.len() - 1].0) == k);
            } else {
                assert(index::map_of(r).contains_key(k));
                let i = choose|i: int| 0 <= i < r.len() && encode_utf8((#[trigger] r[i]).0) == k;
                assert(s[i] == r[i]);
            }
        }
    }
}

/// Whether everything in a dictionary can be stored: texts of at most 65535 bytes, fewer than
/// 2^32 words under a key, and less than 2^64 bytes in all.
pub open spec fn dict_storable(d: Seq<(Seq<char>, Seq<Entry>)>) -> bool {
    &&& data_bytes(d).len() <= u64::MAX
    &&& forall|i: int|
        0 <= i < d.len() ==> trie::fresh((#[trigger] d[i]).1).len() <= u32::MAX && forall|j: int|
            0 <= j < trie::fresh(d[i].1).len() ==> storable(#[trigger] trie::fresh(d[i].1)[j])
}

proof fn lemma_data_grows(d: Seq<(Seq<char>, Seq<Entry>)>, i: int)
    requires
        0 <= i <= d.len(),
    ensures
        8 <= data_bytes(d.take(i)).len() <= data_bytes(d).len(),
        data_bytes(d).take(8) == data_bytes(Seq::empty()),
    decreases d.len(),
{
    assert(trie::TRIE_MAGIC@.len() == 4);
    if d.len() == 0 {
        assert(d.take(i) =~= d);
        assert(d =~= Seq::empty());
        assert(data_bytes(d).take(8) =~= data_bytes(d));
    } else {
        let head = data_bytes(d.drop_last());
        if i == d.len() {
            assert(d.take(i) =~= d);
            lemma_data_grows(d.drop_last(), 0);
            assert(d.drop_last().take(0) =~= Seq::empty());
        } else {
            lemma_data_grows(d.drop_last(), i);
            assert(d.drop_last().take(i) =~= d.take(i));
        }
        assert(data_bytes(d).take(8) =~= head.take(8));
    }
}

/// Compiles a dictionary and opens it. It fails where a key occurs twice.
pub fn compile_and_open(entries: DictSource) -> (r: Option<Trie>)
    ensures
        r is Some <==> index::rising(offsets(by_key(entries@))),
        r matches Some(t) ==> t@ == (TrieView {
            index: index::map_of(offsets(by_key(entries@))),
            data: data_bytes(by_key(entries@)),
        }),
{
    proof {
        lemma_header_reads_back(by_key(entries@));
    }
    match write_binary_dict(entries) {
        Some(c) => match Trie::open(c.index, c.data) {
            Ok(t) => Some(t),
            Err(_) => None,
        },
        None => None,
    }
}

/// What was compiled reads back: with the keys in rising order, each key leads to its
/// entries, each word once, there are no other keys, and the header is in order.
pub proof fn law_compiled_dictionary_reads_back(d: Seq<(Seq<char>, Seq<Entry>)>, t: TrieView)
    requires
        index::rising(offsets(d)),
        dict_storable(d),
        t.index == index::map_of(offsets(d)),
        t.data == data_bytes(d),
    ensures
        trie::header_error(t.data) is None,
        forall|i: int| 0 <= i < d.len() ==> t.exact((#[trigger] d[i]).0) == trie::fresh(d[i].1),
        forall|k: Seq<char>| #[trigger]
            t.has_key(k) ==> exists|i: int| 0 <= i < d.len() && (#[trigger] d[i]).0 == k,
{
    lemma_map_of(offsets(d));
    assert forall|i: int| 0 <= i < d.len() implies t.exact((#[trigger] d[i]).0) == trie::fresh(
        d[i].1,
    ) by {
        lemma_offsets(d, i);
        lemma_data_grows(d, i);
        lemma_block_stands(d, i);
        assert(offsets(d)[i].0 == d[i].0);
        lemma_block_reads_back(t.data, data_bytes(d.take(i)).len() as int, trie::fresh(d[i].1));
    }
    assert forall|k: Seq<char>| #[trigger] t.has_key(k) implies exists|i: int|
        0 <= i < d.len() && (#[trigger] d[i]).0 == k by {
        let o = offsets(d);
        let i = choose|i: int| 0 <= i < o.len() && encode_utf8((#[trigger] o[i]).0) == encode_utf8(k);
        lemma_offsets_len(d);
        lemma_offsets(d, i);
        text::lemma_encoding_is_injective(o[i].0, k);
        assert(d[i].0 == k);
    }
    lemma_header_reads_back(d);
}

proof fn lemma_header_reads_back(d: Seq<(Seq<char>, Seq<Entry>)>)
    ensures
        trie::header_error(data_bytes(d)) is None,
{
    let b = data_bytes(d);
    lemma_data_grows(d, 0);
    let h = b.take(8);
    assert(h == trie::TRIE_MAGIC@ + four_bytes(2));
    assert(b.subrange(0, 8) =~= h);
    lemma_stands_split(b, 0, trie::TRIE_MAGIC@, four_bytes(2));
    assert(b.take(4) =~= b.subrange(0, 4));
    lemma_number_reads_back(b, 4, 2);
}

proof fn lemma_key_order()
    ensures
        crate::order::weak_order(key_before()),
{
    let before = key_before();
    assert forall|a: (Seq<char>, Seq<Entry>), b: (Seq<char>, Seq<Entry>)| #[trigger]
        before(a, b) implies !before(b, a) by {
        index::lemma_bytes_order(encode_utf8(a.0), encode_utf8(b.0));
    }
    assert forall|
        a: (Seq<char>, Seq<Entry>),
        b: (Seq<char>, Seq<Entry>),
        c: (Seq<char>, Seq<Entry>),
    | !(#[trigger] before(a, b)) && !(#[trigger] before(b, c)) implies !before(a, c) by {
        let x = encode_utf8(a.0);
        let y = encode_utf8(b.0);
        let z = encode_utf8(c.0);
        if index::bytes_before(x, z) {
            index::lemma_bytes_order(x, y);
            index::lemma_bytes_order(y, z);
            index::lemma_bytes_order(x, z);
            if x != y && y != z {
                index::lemma_bytes_order_transitive(z, y, x);
            }
        }
    }
}

proof fn lemma_arranged_contains<T>(s: Seq<T>, before: spec_fn(T, T) -> bool, x: T)
    ensures
        crate::order::arranged(s, before).contains(x) <==> s.contains(x),
{
    broadcast use vstd::seq_lib::group_to_multiset_ensures;

    let t = crate::order::arranged(s, before);
    crate::order::law_arranged_keeps_items(s, before);
    assert(t.to_multiset().count(x) == s.to_multiset().count(x));
}

proof fn lemma_distinct_no_duplicates(d: Seq<(Seq<char>, Seq<Entry>)>)
    requires
        crate::strmap::keys_distinct(d),
    ensures
        crate::strmap::keys_distinct(by_key(d)),
{
    broadcast use vstd::seq_lib::group_to_multiset_ensures;

    let t = by_key(d);
    crate::order::law_arranged_keeps_items(d, key_before());
    assert forall|i: int, j: int| 0 <= i < t.len() && 0 <= j < t.len() && i != j implies (#[trigger] t[i]).0
        != (#[trigger] t[j]).0 by {
        lemma_arranged_contains(d, key_before(), t[i]);
        lemma_arranged_contains(d, key_before(), t[j]);
        assert(t.contains(t[i]) && t.contains(t[j]));
        let a = choose|a: int| 0 <= a < d.len() && d[a] == t[i];
        let b = choose|b: int| 0 <= b < d.len() && d[b] == t[j];
        if t[i].0 == t[j].0 {
            assert(a == b) by {
                if a != b {
                    assert(d[a].0 != d[b].0);
                }
            }
            assert(d.no_duplicates()) by {
                assert forall|x: int, y: int| 0 <= x < d.len() && 0 <= y < d.len() && x != y implies d[x]
                    != d[y] by {
                    assert(d[x].0 != d[y].0);
                }
            }
            d.lemma_multiset_has_no_duplicates();
            t.lemma_multiset_has_no_duplicates_conv();
            assert(t[i] != t[j]);
        }
    }
}

/// Distinct keys, once sorted, rise.
proof fn lemma_distinct_keys_rise(d: Seq<(Seq<char>, Seq<Entry>)>)
    requires
        crate::strmap::keys_distinct(d),
    ensures
        index::rising(offsets(by_key(d))),
{
    let t = by_key(d);
    lemma_key_order();
    crate::order::law_arranged_in_order(d, key_before());
    lemma_distinct_no_duplicates(d);
    let o = offsets(t);
    lemma_offsets_len(t);
    assert forall|i: int, j: int| 0 <= i < j < o.len() implies index::text_before(
        (#[trigger] o[i]).0,
        (#[trigger] o[j]).0,
    ) by {
        lemma_offsets(t, i);
        lemma_offsets(t, j);
        assert(!key_before()(t[j], t[i]));
        assert(t[i].0 != t[j].0);
        let x = encode_utf8(t[i].0);
        let y = encode_utf8(t[j].0);
        if x == y {
            text::lemma_encoding_is_injective(t[i].0, t[j].0);
        }
        index::lemma_bytes_order(x, y);
    }
}

/// A dictionary whose keys are distinct compiles, and every key leads back to its entries,
/// each word once.
pub proof fn law_dictionary_round_trip(
    d: Seq<(Seq<char>, Seq<Entry>)>,
    t: TrieView,
    k: Seq<char>,
)
    requires
        crate::strmap::keys_distinct(d),
        dict_storable(by_key(d)),
        t.index == index::map_of(offsets(by_key(d))),
        t.data == data_bytes(by_key(d)),
    ensures
        index::rising(offsets(by_key(d))),
        t.exact(k) == (match crate::strmap::lookup(d, k) {
            Some(list) => trie::fresh(list),
            None => Seq::<Entry>::empty(),
        }),
{
    let b = by_key(d);
    lemma_distinct_keys_rise(d);
    law_compiled_dictionary_reads_back(b, t);
    crate::strmap::lemma_index(d, k);
    let x = crate::strmap::index_of(d, k);
    if x >= 0 {
        lemma_arranged_contains(d, key_before(), d[x]);
        assert(d.contains(d[x]));
        let i = choose|i: int| 0 <= i < b.len() && b[i] == d[x];
        assert(t.exact(b[i].0) == trie::fresh(b[i].1));
    } else if t.has_key(k) {
        let i = choose|i: int| 0 <= i < b.len() && (#[trigger] b[i]).0 == k;
        lemma_arranged_contains(d, key_before(), b[i]);
        assert(b.contains(b[i]));
        let y = choose|y: int| 0 <= y < d.len() && d[y] == b[i];
        assert(d[y].0 == k);
    }
}

} // verus!
