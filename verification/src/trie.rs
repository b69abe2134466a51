//! Dictionaries: an index of keys, and behind each key a block of entries.

use vstd::prelude::*;
use vstd::utf8::*;
use crate::index;
use crate::index::{fst_get, fst_into_bytes, fst_near, fst_new, fst_prefixed};
use crate::order::sort_stable;
use crate::tables::{WordMap, WordSet};
use crate::text;
use crate::text::{chars_of, same_text, string_of, utf8_str};

verus! {

/// The first bytes of a dictionary's data.
pub const TRIE_MAGIC: [u8; 4] = [81, 89, 84, 82];

/// The version of the data format: the second one, with a byte of flags per entry.
pub const TRIE_VERSION: u32 = 2;

/// How many entries an abbreviation search collects at most.
pub const ABBREVIATION_SCAN_LIMIT: usize = 3000;

/// What a dictionary says of a word.
#[verifier::ext_equal]
pub struct Entry {
    pub word: Seq<char>,
    pub trad: Seq<char>,
    pub tone: Seq<char>,
    pub en: Seq<char>,
    pub stroke_aux: Seq<char>,
    pub weight: u32,
    pub flags: u8,
}

/// An entry of a dictionary, borrowed from its data.
#[derive(Clone, Copy)]
pub struct TrieResult<'a> {
    pub word: &'a str,
    pub trad: &'a str,
    pub tone: &'a str,
    pub en: &'a str,
    pub stroke_aux: &'a str,
    pub weight: u32,
    pub flags: u8,
}

impl<'a> View for TrieResult<'a> {
    type V = Entry;

    open spec fn view(&self) -> Entry {
        Entry {
            word: self.word@,
            trad: self.trad@,
            tone: self.tone@,
            en: self.en@,
            stroke_aux: self.stroke_aux@,
            weight: self.weight,
            flags: self.flags,
        }
    }
}

/// The entries that a list of results stands for.
pub open spec fn views<'a>(v: Seq<TrieResult<'a>>) -> Seq<Entry> {
    v.map_values(|t: TrieResult<'a>| t@)
}

pub open spec fn u16_at(d: Seq<u8>, i: int) -> int {
    d[i] + 256 * d[i + 1]
}

pub open spec fn u32_at(d: Seq<u8>, i: int) -> int {
    d[i] + 256 * d[i + 1] + 65536 * d[i + 2] + 16777216 * d[i + 3]
}

/// A text in the data: two bytes of length, then its bytes. With it comes the position
/// behind it.
pub open spec fn str_at(d: Seq<u8>, c: int) -> Option<(Seq<char>, int)> {
    if c + 2 > d.len() || c + 2 + u16_at(d, c) > d.len() {
        None
    } else {
        let b = d.subrange(c + 2, c + 2 + u16_at(d, c));
        if valid_utf8(b) {
            Some((decode_utf8(b), c + 2 + u16_at(d, c)))
        } else {
            None
        }
    }
}

/// What follows the texts of an entry: four bytes of weight and a byte of flags. At the end
/// of the data the flags may be missing, and count as zero.
pub open spec fn tail_at(d: Seq<u8>, c: int) -> Option<(u32, u8, int)> {
    if c + 4 > d.len() {
        None
    } else if c + 4 < d.len() {
        Some((u32_at(d, c) as u32, d[c + 4], c + 5))
    } else {
        Some((u32_at(d, c) as u32, 0, c + 4))
    }
}

/// An entry in the data, and the position behind it.
#[verifier::opaque]
pub open spec fn entry_at(d: Seq<u8>, c: int) -> Option<(Entry, int)> {
    match str_at(d, c) {
        None => None,
        Some((word, c1)) => match str_at(d, c1) {
            None => None,
            Some((trad, c2)) => match str_at(d, c2) {
                None => None,
                Some((tone, c3)) => match str_at(d, c3) {
                    None => None,
                    Some((en, c4)) => match str_at(d, c4) {
                        None => None,
                        Some((stroke_aux, c5)) => match tail_at(d, c5) {
                            None => None,
                            Some((weight, flags, c6)) => Some(
                                (Entry { word, trad, tone, en, stroke_aux, weight, flags }, c6),
                            ),
                        },
                    },
                },
            },
        },
    }
}

/// At most `n` entries in the data from a position on: reading stops at the first that is
/// damaged.
pub open spec fn entries_from(d: Seq<u8>, c: int, n: int) -> Seq<Entry>
    decreases n,
{
    if n <= 0 {
        Seq::empty()
    } else {
        match entry_at(d, c) {
            None => Seq::empty(),
            Some((e, c2)) => seq![e] + entries_from(d, c2, n - 1),
        }
    }
}

/// The block of entries at an offset: four bytes of count, then the entries. There is none
/// beyond the end of the data.
pub open spec fn block_at(d: Seq<u8>, off: int) -> Seq<Entry> {
    if off + 4 > d.len() {
        Seq::empty()
    } else {
        entries_from(d, off + 4, u32_at(d, off))
    }
}

/// A dictionary as its index and its data.
pub struct TrieView {
    pub index: Map<Seq<u8>, u64>,
    pub data: Seq<u8>,
}

impl TrieView {
    /// The entries under a key.
    pub open spec fn exact(self, key: Seq<char>) -> Seq<Entry> {
        if self.has_key(key) {
            block_at(self.data, self.index[encode_utf8(key)] as int)
        } else {
            Seq::empty()
        }
    }

    /// Whether the index has a key.
    pub open spec fn has_key(self, key: Seq<char>) -> bool {
        self.index.contains_key(encode_utf8(key))
    }

    /// Whether some key begins with a text and goes on behind it.
    pub open spec fn goes_on(self, prefix: Seq<char>) -> bool {
        exists|k: Seq<u8>| #[trigger]
            self.index.contains_key(k) && index::bytes_begin(k, encode_utf8(prefix)) && k.len()
                > text::byte_len(prefix)
    }

    /// Whether some key begins with a text.
    pub open spec fn begins(self, prefix: Seq<char>) -> bool {
        exists|k: Seq<u8>| #[trigger]
            self.index.contains_key(k) && index::bytes_begin(k, encode_utf8(prefix))
    }

    /// The keys that begin with a text, in order, each with its offset.
    pub open spec fn keys_from(self, prefix: Seq<char>) -> Seq<(Seq<u8>, u64)> {
        index::listing(self.index, index::beginning_with(prefix))
    }
}

/// Why a dictionary cannot be opened.
#[derive(Debug, PartialEq, Eq, Structural, Clone, Copy)]
pub enum TrieError {
    /// The index is not one.
    Index,
    /// The data are of another version.
    Version(u32),
    /// The data have no header.
    TooOld,
}

/// A dictionary.
pub struct Trie {
    index: fst::Map<Vec<u8>>,
    data: Vec<u8>,
    word_pinyin: WordMap,
    words: WordSet,
}

impl View for Trie {
    type V = TrieView;

    closed spec fn view(&self) -> TrieView {
        TrieView { index: index::fst_entries(index::fst_bytes(self.index)), data: self.data@ }
    }
}

/// What the header of a dictionary's data makes of it.
pub open spec fn header_error(d: Seq<u8>) -> Option<TrieError> {
    if d.len() >= 8 && d.take(4) == TRIE_MAGIC@ {
        if u32_at(d, 4) != TRIE_VERSION {
            Some(TrieError::Version(u32_at(d, 4) as u32))
        } else {
            None
        }
    } else {
        Some(TrieError::TooOld)
    }
}

/// Reads four bytes as a number.
fn read_u32(d: &[u8], i: usize) -> (r: u32)
    requires
        i + 4 <= d@.len(),
    ensures
        r == u32_at(d@, i as int),
{
    (d[i] as u32) + 256 * (d[i + 1] as u32) + 65536 * (d[i + 2] as u32) + 16777216 * (d[i + 3] as u32)
}

/// Checks the header of a dictionary's data.
pub fn check_header(d: &[u8]) -> (r: Option<TrieError>)
    ensures
        r == header_error(d@),
{
    if d.len() >= 8 && d[0] == TRIE_MAGIC[0] && d[1] == TRIE_MAGIC[1] && d[2] == TRIE_MAGIC[2] && d[3]
        == TRIE_MAGIC[3] {
        proof {
            assert(d@.take(4) =~= TRIE_MAGIC@);
        }
        let version = read_u32(d, 4);
        if version != TRIE_VERSION {
            Some(TrieError::Version(version))
        } else {
            None
        }
    } else {
        proof {
            if d@.len() >= 8 && d@.take(4) == TRIE_MAGIC@ {
                assert(d@.take(4)[0] == TRIE_MAGIC@[0]);
                assert(d@.take(4)[1] == TRIE_MAGIC@[1]);
                assert(d@.take(4)[2] == TRIE_MAGIC@[2]);
                assert(d@.take(4)[3] == TRIE_MAGIC@[3]);
            }
        }
        Some(TrieError::TooOld)
    }
}

/// Reads a text, and the position behind it.
fn read_str<'a>(d: &'a [u8], c: usize) -> (r: Option<(&'a str, usize)>)
    ensures
        r is Some <==> str_at(d@, c as int) is Some,
        r matches Some((s, c2)) ==> str_at(d@, c as int) == Some((s@, c2 as int)) && c2 <= d@.len(),
{
    if c > d.len() || d.len() - c < 2 {
        return None;
    }
    let len = (d[c] as usize) + 256 * (d[c + 1] as usize);
    if d.len() - c - 2 < len {
        return None;
    }
    let bytes = vstd::slice::slice_subrange(d, c + 2, c + 2 + len);
    match utf8_str(bytes) {
        None => None,
        Some(s) => {
            proof {
                encode_utf8_decode_utf8(s@);
            }
            Some((s, c + 2 + len))
        },
    }
}

/// Reads an entry, and the position behind it.
fn read_entry<'a>(d: &'a [u8], c: usize) -> (r: Option<(TrieResult<'a>, usize)>)
    ensures
        r is Some <==> entry_at(d@, c as int) is Some,
        r matches Some((e, c2)) ==> entry_at(d@, c as int) == Some((e@, c2 as int)) && c2 <= d@.len(),
{
    proof {
        reveal(entry_at);
    }
    let (word, c1) = match read_str(d, c) {
        Some(x) => x,
        None => {
            return None;
        },
    };
    let (trad, c2) = match read_str(d, c1) {
        Some(x) => x,
        None => {
            return None;
        },
    };
    let (tone, c3) = match read_str(d, c2) {
        Some(x) => x,
        None => {
            return None;
        },
    };
    let (en, c4) = match read_str(d, c3) {
        Some(x) => x,
        None => {
            return None;
        },
    };
    let (stroke_aux, c5) = match read_str(d, c4) {
        Some(x) => x,
        None => {
            return None;
        },
    };
    if d.len() - c5 < 4 {
        return None;
    }
    let weight = read_u32(d, c5);
    if c5 + 4 < d.len() {
        let flags = d[c5 + 4];
        Some((TrieResult { word, trad, tone, en, stroke_aux, weight, flags }, c5 + 5))
    } else {
        Some((TrieResult { word, trad, tone, en, stroke_aux, weight, flags: 0 }, c5 + 4))
    }
}

/// Reads the block of entries at an offset.
fn block_of<'a>(d: &'a [u8], offset: u64) -> (r: Vec<TrieResult<'a>>)
    ensures
        views(r@) == block_at(d@, offset as int),
{
    let mut out: Vec<TrieResult<'a>> = Vec::new();
    if d.len() < 4 || offset > (d.len() - 4) as u64 {
        proof {
            assert(views(out@) =~= Seq::<Entry>::empty());
        }
        return out;
    }
    let start = offset as usize;
    let count = read_u32(d, start);
    let mut c: usize = start + 4;
    let mut n: u32 = 0;
    let ghost all = entries_from(d@, start + 4, count as int);
    proof {
        assert(views(out@) + all =~= all);
    }
    while n < count
        invariant
            n <= count,
            c <= d@.len(),
            views(out@) + entries_from(d@, c as int, count - n) == all,
        ensures
            views(out@) == all,
        decreases count - n,
    {
        match read_entry(d, c) {
            None => {
                proof {
                    assert(views(out@) + Seq::<Entry>::empty() =~= views(out@));
                }
                break ;
            },
            Some((e, c2)) => {
                proof {
                    assert(views(out@.push(e)) =~= views(out@).push(e@));
                    assert(views(out@) + (seq![e@] + entries_from(d@, c2 as int, count - n - 1))
                        =~= views(out@).push(e@) + entries_from(d@, c2 as int, count - n - 1));
                }
                out.push(e);
                c = c2;
                n = n + 1;
                proof {
                    if n == count {
                        assert(views(out@) + Seq::<Entry>::empty() =~= views(out@));
                    }
                }
            },
        }
    }
    out
}

/// What `String::from_utf8_lossy` makes of bytes that are no text.
pub uninterp spec fn lossy_text(b: Seq<u8>) -> Seq<char>;

/// `String::from_utf8_lossy` puts replacement characters in the place of malformed bytes. Its
/// result is named.
#[verifier::external_body]
fn std_lossy(b: &[u8]) -> (r: String)
    ensures
        r@ == lossy_text(b@),
{
    String::from_utf8_lossy(b).into_owned()
}

/// A key of the index, as a text.
pub open spec fn key_text(b: Seq<u8>) -> Seq<char> {
    if valid_utf8(b) {
        decode_utf8(b)
    } else {
        lossy_text(b)
    }
}

/// The text of a key.
fn text_of_key(b: &[u8]) -> (r: String)
    ensures
        r@ == key_text(b@),
{
    match utf8_str(b) {
        Some(s) => {
            proof {
                encode_utf8_decode_utf8(s@);
            }
            s.to_owned()
        },
        None => std_lossy(b),
    }
}

/// Whether a word occurs among entries.
pub open spec fn has_word(s: Seq<Entry>, w: Seq<char>) -> bool {
    exists|i: int| 0 <= i < s.len() && (#[trigger] s[i]).word == w
}

/// The entries without those whose word occurred before.
pub open spec fn fresh(s: Seq<Entry>) -> Seq<Entry>
    decreases s.len(),
{
    if s.len() == 0 {
        s
    } else if has_word(s.drop_last(), s.last().word) {
        fresh(s.drop_last())
    } else {
        fresh(s.drop_last()).push(s.last())
    }
}

/// The blocks behind some keys, one after the other.
pub open spec fn blocks(d: Seq<u8>, keys: Seq<(Seq<u8>, u64)>) -> Seq<Entry>
    decreases keys.len(),
{
    if keys.len() == 0 {
        Seq::empty()
    } else {
        blocks(d, keys.drop_last()) + block_at(d, keys.last().1 as int)
    }
}

/// Whether an entry passes a filter on its stroke column.
pub open spec fn on_level(level: Option<Seq<char>>) -> spec_fn(Entry) -> bool {
    |e: Entry| level matches Some(l) ==> e.stroke_aux == l
}

/// Whether an entry weighs more than another.
pub open spec fn heavier() -> spec_fn(Entry, Entry) -> bool {
    |a: Entry, b: Entry| a.weight > b.weight
}

/// A view of an optional text.
pub open spec fn opt_text(o: Option<&str>) -> Option<Seq<char>> {
    match o {
        Some(s) => Some(s@),
        None => None,
    }
}

/// The smaller of two numbers.
pub open spec fn least(a: int, b: int) -> int {
    if a < b {
        a
    } else {
        b
    }
}

/// The larger of two numbers.
pub open spec fn most(a: int, b: int) -> int {
    if a < b {
        b
    } else {
        a
    }
}

impl TrieView {
    /// The entries under a key whose stroke column is as asked.
    pub open spec fn exact_on_level(self, key: Seq<char>, level: Option<Seq<char>>) -> Seq<Entry> {
        self.exact(key).filter(on_level(level))
    }

    /// The entries under the keys that begin with a text, each word once: the heaviest first, as
    /// many as asked for. A limit of zero is none: they are all given, in the order of the keys.
    pub open spec fn bfs(self, prefix: Seq<char>, limit: int, level: Option<Seq<char>>) -> Seq<Entry> {
        let all = fresh(blocks(self.data, self.keys_from(prefix))).filter(on_level(level));
        if limit == 0 {
            all
        } else {
            crate::order::arranged(all, heavier()).take(least(limit, all.len() as int))
        }
    }

    /// For each word that stands first under a key, the first such key.
    pub open spec fn word_pinyin(self) -> Map<Seq<char>, Seq<char>> {
        word_index(self.data, self.keys_from(Seq::empty()))
    }

    /// Whether a word stands under some key.
    pub open spec fn holds(self, w: Seq<char>) -> bool {
        has_word(blocks(self.data, self.keys_from(Seq::empty())), w)
    }
}

/// For each word that stands first in one of the blocks, the first key of such a block.
pub open spec fn word_index(d: Seq<u8>, keys: Seq<(Seq<u8>, u64)>) -> Map<Seq<char>, Seq<char>>
    decreases keys.len(),
{
    if keys.len() == 0 {
        Map::empty()
    } else {
        let m = word_index(d, keys.drop_last());
        let b = block_at(d, keys.last().1 as int);
        if b.len() > 0 && valid_utf8(keys.last().0) && !m.contains_key(b[0].word) {
            m.insert(b[0].word, decode_utf8(keys.last().0))
        } else {
            m
        }
    }
}

/// Finds for each word that stands first under a key the first such key.
fn build_word_pinyin(m: &fst::Map<Vec<u8>>, d: &[u8]) -> (r: WordMap)
    requires
        index::fst_whole(index::fst_bytes(*m)),
    ensures
        r@ == (TrieView { index: index::fst_entries(index::fst_bytes(*m)), data: d@ }).word_pinyin(),
{
    let keys = fst_prefixed(m, "");
    let ghost ks = index::pairs_of(keys@);
    proof {
        reveal_strlit("");
        assert(""@ =~= Seq::<char>::empty());
        index::lemma_is_listing(
            ks,
            index::fst_entries(index::fst_bytes(*m)),
            index::beginning_with(Seq::empty()),
        );
        assert(ks.take(0) =~= Seq::<(Seq<u8>, u64)>::empty());
    }
    let mut out = WordMap::new();
    let mut i: usize = 0;
    while i < keys.len()
        invariant
            i <= keys.len(),
            ks == index::pairs_of(keys@),
            out@ == word_index(d@, ks.take(i as int)),
        decreases keys.len() - i,
    {
        proof {
            assert(ks.take(i + 1).drop_last() =~= ks.take(i as int));
            assert(ks.take(i + 1).last() == (keys@[i as int].0@, keys@[i as int].1));
        }
        let b = block_of(d, keys[i].1);
        proof {
            if b@.len() > 0 {
                assert(views(b@)[0] == b@[0]@);
            }
        }
        if b.len() > 0 {
            match utf8_str(keys[i].0.as_slice()) {
                Some(k) => {
                    proof {
                        encode_utf8_decode_utf8(k@);
                    }
                    if !out.contains_key(b[0].word) {
                        out.insert(b[0].word.to_owned(), k.to_owned());
                    }
                },
                None => {},
            }
        }
        i = i + 1;
    }
    proof {
        assert(ks.take(ks.len() as int) =~= ks);
    }
    out
}

/// Adds the words of a block.
fn add_words<'a>(seen: &mut WordSet, b: &Vec<TrieResult<'a>>)
    ensures
        forall|w: Seq<char>| #[trigger]
            final(seen)@.contains(w) <==> old(seen)@.contains(w) || has_word(views(b@), w),
{
    let ghost start = seen@;
    let ghost s = views(b@);
    let mut j: usize = 0;
    while j < b.len()
        invariant
            j <= b.len(),
            s == views(b@),
            forall|w: Seq<char>| #[trigger]
                seen@.contains(w) <==> start.contains(w) || has_word(s.take(j as int), w),
        decreases b.len() - j,
    {
        let ghost was = s.take(j as int);
        let ghost now = s.take(j + 1);
        let ghost e = b@[j as int].word@;
        proof {
            assert(s[j as int] == b@[j as int]@);
            assert forall|w: Seq<char>| has_word(now, w) <==> has_word(was, w) || w == e by {
                if has_word(was, w) {
                    let x = choose|x: int| 0 <= x < was.len() && (#[trigger] was[x]).word == w;
                    assert(now[x].word == w);
                }
                if w == e {
                    assert(now[j as int].word == w);
                }
                if has_word(now, w) && w != e {
                    let x = choose|x: int| 0 <= x < now.len() && (#[trigger] now[x]).word == w;
                    assert(was[x].word == w);
                }
            }
        }
        let _ = seen.insert(b[j].word.to_owned());
        j = j + 1;
    }
    proof {
        assert(s.take(s.len() as int) =~= s);
    }
}

/// Finds all words.
fn build_words(m: &fst::Map<Vec<u8>>, d: &[u8]) -> (r: WordSet)
    requires
        index::fst_whole(index::fst_bytes(*m)),
    ensures
        forall|w: Seq<char>| #[trigger]
            r@.contains(w) <==> (TrieView {
                index: index::fst_entries(index::fst_bytes(*m)),
                data: d@,
            }).holds(w),
{
    let keys = fst_prefixed(m, "");
    let ghost ks = index::pairs_of(keys@);
    proof {
        reveal_strlit("");
        assert(""@ =~= Seq::<char>::empty());
        index::lemma_is_listing(
            ks,
            index::fst_entries(index::fst_bytes(*m)),
            index::beginning_with(Seq::empty()),
        );
        assert(ks.take(0) =~= Seq::<(Seq<u8>, u64)>::empty());
    }
    let mut out = WordSet::new();
    let mut i: usize = 0;
    while i < keys.len()
        invariant
            i <= keys.len(),
            ks == index::pairs_of(keys@),
            forall|w: Seq<char>| #[trigger]
                out@.contains(w) <==> has_word(blocks(d@, ks.take(i as int)), w),
        decreases keys.len() - i,
    {
        let ghost was = blocks(d@, ks.take(i as int));
        let b = block_of(d, keys[i].1);
        let ghost bv = views(b@);
        let ghost now = blocks(d@, ks.take(i + 1));
        proof {
            assert(ks.take(i + 1).drop_last() =~= ks.take(i as int));
            assert(ks.take(i + 1).last().1 == keys@[i as int].1);
            assert(now == was + bv);
            assert forall|w: Seq<char>| has_word(now, w) <==> has_word(was, w) || has_word(bv, w) by {
                if has_word(was, w) {
                    let x = choose|x: int| 0 <= x < was.len() && (#[trigger] was[x]).word == w;
                    assert(now[x].word == w);
                }
                if has_word(bv, w) {
                    let x = choose|x: int| 0 <= x < bv.len() && (#[trigger] bv[x]).word == w;
                    assert(now[was.len() + x].word == w);
                }
                if has_word(now, w) {
                    let x = choose|x: int| 0 <= x < now.len() && (#[trigger] now[x]).word == w;
                    if x < was.len() {
                        assert(was[x].word == w);
                    } else {
                        assert(bv[x - was.len()].word == w);
                    }
                }
            }
        }
        add_words(&mut out, &b);
        i = i + 1;
    }
    proof {
        assert(ks.take(ks.len() as int) =~= ks);
    }
    out
}

impl Trie {
    #[verifier::type_invariant]
    spec fn inv(self) -> bool {
        &&& index::fst_whole(index::fst_bytes(self.index))
        &&& self.word_pinyin@ == self.view().word_pinyin()
        &&& forall|w: Seq<char>| #[trigger] self.words@.contains(w) <==> self.view().holds(w)
    }

    /// Opens a dictionary whose index holds a whole transducer, as that of a compiled dictionary
    /// does.
    pub fn open(index_bytes: Vec<u8>, data: Vec<u8>) -> (r: Result<Trie, TrieError>)
        requires
            index::fst_whole(index_bytes@),
        ensures
            match header_error(data@) {
                Some(e) => r == Err::<Trie, TrieError>(e),
                None => r matches Ok(t) && t@ == (TrieView {
                    index: index::fst_entries(index_bytes@),
                    data: data@,
                }),
            },
    {
        let m = match fst_new(index_bytes) {
            Ok(m) => m,
            Err(_) => {
                return Err(TrieError::Index);
            },
        };
        match check_header(data.as_slice()) {
            Some(e) => Err(e),
            None => {
                let word_pinyin = build_word_pinyin(&m, data.as_slice());
                let words = build_words(&m, data.as_slice());
                Ok(Trie { index: m, data, word_pinyin, words })
            },
        }
    }

    /// Whether the files of a dictionary are such that they can be opened: the index is taken for
    /// one, and the data have the header of this version. They are handed back.
    pub fn check(index_bytes: Vec<u8>, data: Vec<u8>) -> (r: Result<(Vec<u8>, Vec<u8>), TrieError>)
        ensures
            if !index::fst_accepts(index_bytes@) {
                r == Err::<(Vec<u8>, Vec<u8>), TrieError>(TrieError::Index)
            } else {
                match header_error(data@) {
                    Some(e) => r == Err::<(Vec<u8>, Vec<u8>), TrieError>(e),
                    None => r matches Ok((i, d)) && i@ == index_bytes@ && d@ == data@,
                }
            },
    {
        match fst_new(index_bytes) {
            Err(_) => Err(TrieError::Index),
            Ok(m) => match check_header(data.as_slice()) {
                Some(e) => Err(e),
                None => Ok((fst_into_bytes(m), data)),
            },
        }
    }

    /// The block of entries at an offset.
    pub fn read_block<'a>(&'a self, offset: u64) -> (r: Vec<TrieResult<'a>>)
        ensures
            views(r@) == block_at(self@.data, offset as int),
    {
        block_of(self.data.as_slice(), offset)
    }

    /// The offset under a key.
    fn offset_of(&self, key: &str) -> (r: Option<u64>)
        ensures
            r is Some <==> self@.has_key(key@),
            r matches Some(o) ==> o == self@.index[encode_utf8(key@)],
    {
        proof {
            use_type_invariant(self);
        }
        fst_get(&self.index, key)
    }

    /// Whether the index has a key.
    pub fn contains_key(&self, key: &str) -> (r: bool)
        ensures
            r == self@.has_key(key@),
    {
        self.offset_of(key).is_some()
    }

    /// The keys that begin with a text, each with its offset.
    pub(crate) fn keys_with_prefix(&self, prefix: &str) -> (r: Vec<(Vec<u8>, u64)>)
        ensures
            index::pairs_of(r@) == self@.keys_from(prefix@),
            index::lists(index::pairs_of(r@), self@.index, index::beginning_with(prefix@)),
    {
        proof {
            use_type_invariant(self);
        }
        let r = fst_prefixed(&self.index, prefix);
        proof {
            index::lemma_is_listing(
                index::pairs_of(r@),
                self@.index,
                index::beginning_with(prefix@),
            );
        }
        r
    }
}

impl TrieView {
    /// The keys that the search for texts at most one edit away comes to, in order; none where
    /// the search would be too big.
    pub open spec fn keys_near(self, query: Seq<char>) -> Seq<(Seq<u8>, u64)> {
        if index::levenshtein_too_big(query) {
            Seq::empty()
        } else {
            index::listing(self.index, index::reached(query))
        }
    }
}

impl Trie {
    /// The keys that the search for texts at most one edit away comes to, each with its offset.
    pub(crate) fn keys_nearby(&self, query: &str) -> (r: Vec<(Vec<u8>, u64)>)
        ensures
            index::pairs_of(r@) == self@.keys_near(query@),
            forall|i: int| 0 <= i < r@.len() ==> valid_utf8((#[trigger] r@[i]).0@),
    {
        proof {
            use_type_invariant(self);
        }
        match fst_near(&self.index, query) {
            Some(v) => {
                let ghost ps = index::pairs_of(v@);
                proof {
                    index::lemma_is_listing(ps, self@.index, index::reached(query@));
                    assert forall|i: int| 0 <= i < v@.len() implies valid_utf8((#[trigger] v@[i]).0@) by {
                        assert(ps[i].0 == v@[i].0@);
                        assert(index::reached(query@)(ps[i].0));
                    }
                }
                v
            },
            None => {
                let v: Vec<(Vec<u8>, u64)> = Vec::new();
                proof {
                    assert(index::pairs_of(v@) =~= Seq::<(Seq<u8>, u64)>::empty());
                }
                v
            },
        }
    }
}

/// Keeps the results whose stroke column is as asked.
fn keep_level<'a>(v: Vec<TrieResult<'a>>, level: Option<&str>) -> (r: Vec<TrieResult<'a>>)
    ensures
        views(r@) == views(v@).filter(on_level(opt_text(level))),
{
    let mut out: Vec<TrieResult<'a>> = Vec::new();
    let mut i: usize = 0;
    let ghost p = on_level(opt_text(level));
    proof {
        assert(views(v@).take(0) =~= Seq::<Entry>::empty());
        assert(views(out@) =~= Seq::<Entry>::empty());
        reveal(Seq::filter);
    }
    while i < v.len()
        invariant
            i <= v.len(),
            p == on_level(opt_text(level)),
            views(out@) == views(v@).take(i as int).filter(p),
        decreases v.len() - i,
    {
        let e = v[i];
        let keep = match level {
            Some(l) => same_text(e.stroke_aux, l),
            None => true,
        };
        proof {
            let w = views(v@);
            assert(w.take(i + 1).drop_last() =~= w.take(i as int));
            assert(w.take(i + 1).last() == e@);
            reveal(Seq::filter);
        }
        if keep {
            proof {
                assert(views(out@.push(e)) =~= views(out@).push(e@));
            }
            out.push(e);
        }
        i = i + 1;
    }
    proof {
        assert(views(v@).take(v@.len() as int) =~= views(v@));
    }
    out
}


/// Whether a result weighs more than another.
fn weighs_more<'a>(a: &TrieResult<'a>, b: &TrieResult<'a>) -> (r: bool)
    ensures
        r == (a.weight > b.weight),
{
    a.weight > b.weight
}

/// Sorts results by falling weight, keeping the order of equals.
pub(crate) fn sort_by_weight<'a>(v: &mut Vec<TrieResult<'a>>)
    ensures
        views(final(v)@) == crate::order::arranged(views(old(v)@), heavier()),
{
    let ghost s = v@;
    let ghost before = |a: TrieResult<'a>, b: TrieResult<'a>| a.weight > b.weight;
    sort_stable(v, weighs_more, Ghost(before));
    proof {
        lemma_arranged_views(s);
    }
}

proof fn lemma_placed_views<'a>(x: TrieResult<'a>, s: Seq<TrieResult<'a>>)
    ensures
        views(
            crate::order::placed(x, s, |a: TrieResult<'a>, b: TrieResult<'a>| a.weight > b.weight),
        ) == crate::order::placed(x@, views(s), heavier()),
    decreases s.len(),
{
    let before = |a: TrieResult<'a>, b: TrieResult<'a>| a.weight > b.weight;
    if s.len() == 0 || !before(s[0], x) {
        assert(views(seq![x] + s) =~= seq![x@] + views(s));
        if s.len() > 0 {
            assert(views(s)[0] == s[0]@);
        }
    } else {
        lemma_placed_views(x, s.drop_first());
        assert(views(s)[0] == s[0]@);
        assert(views(s.drop_first()) =~= views(s).drop_first());
        let t = crate::order::placed(x, s.drop_first(), before);
        assert(views(seq![s[0]] + t) =~= seq![s[0]@] + views(t));
    }
}

proof fn lemma_arranged_views<'a>(s: Seq<TrieResult<'a>>)
    ensures
        views(
            crate::order::arranged(s, |a: TrieResult<'a>, b: TrieResult<'a>| a.weight > b.weight),
        ) == crate::order::arranged(views(s), heavier()),
    decreases s.len(),
{
    let before = |a: TrieResult<'a>, b: TrieResult<'a>| a.weight > b.weight;
    if s.len() == 0 {
        assert(views(s) =~= Seq::<Entry>::empty());
    } else {
        lemma_arranged_views(s.drop_first());
        lemma_placed_views(s[0], crate::order::arranged(s.drop_first(), before));
        assert(views(s.drop_first()) =~= views(s).drop_first());
        assert(views(s)[0] == s[0]@);
    }
}

/// Whether a pattern in which `z` stands for any byte fits the beginning of a key. Without a
/// `z` the pattern has to be the beginning itself.
pub open spec fn wildcard_fits(pattern: Seq<char>, key: Seq<char>) -> bool {
    let p = encode_utf8(pattern);
    let k = encode_utf8(key);
    &&& p.len() <= k.len()
    &&& forall|i: int| 0 <= i < p.len() ==> #[trigger] p[i] == 122u8 || p[i] == k[i]
}

/// The keys to which a wildcard pattern is held: those that begin with what stands before its
/// first `z`. The pattern begins with a `z`, or has none: every key.
pub open spec fn wildcard_stem(pattern: Seq<char>) -> Seq<char> {
    if pattern.contains('z') {
        text::up_to(pattern, 'z')
    } else {
        Seq::empty()
    }
}

/// Whether a key is a text that a wildcard pattern fits.
pub open spec fn wildcard_key(pattern: Seq<char>) -> spec_fn((Seq<u8>, u64)) -> bool {
    |k: (Seq<u8>, u64)| valid_utf8(k.0) && wildcard_fits(pattern, decode_utf8(k.0))
}

/// Whether a key can be cut into known keys, one for each segment and beginning with it.
pub open spec fn strict_match(t: TrieView, key: Seq<char>, segs: Seq<Seq<char>>) -> bool
    decreases segs.len(),
{
    if segs.len() == 0 {
        key.len() == 0
    } else {
        ||| exists|n: int| #[trigger] strict_cut(t, key, segs[0], n) && strict_match(
            t,
            key.skip(n),
            segs.drop_first(),
        )
        ||| key.len() > 0 && segs.len() == 1 && t.has_key(key) && text::begins(key, segs[0])
    }
}

/// Whether the first `n` characters of a key, which are not all of it, are a known key of at
/// most nine characters and ten bytes that begins with a segment.
pub open spec fn strict_cut(t: TrieView, key: Seq<char>, seg: Seq<char>, n: int) -> bool {
    &&& 1 <= n <= 9
    &&& n < key.len()
    &&& text::byte_len(key.take(n)) <= 10
    &&& t.has_key(key.take(n))
    &&& text::begins(key.take(n), seg)
}

/// Whether a syllable answers a segment: an initial stands for every single syllable that
/// begins with it, anything else for itself. With no list of single syllables, every key
/// counts as one.
pub open spec fn answers(syl: Seq<char>, seg: (Seq<char>, bool), singles: Set<Seq<char>>) -> bool {
    if seg.1 {
        (singles =~= Set::<Seq<char>>::empty() || singles.contains(syl)) && text::begins(syl, seg.0)
    } else {
        syl == seg.0
    }
}

/// Whether the first `n` characters of a key, which are not all of it, are a known key of at
/// most nine characters and ten bytes that answers a segment.
pub open spec fn mixed_cut(
    t: TrieView,
    key: Seq<char>,
    seg: (Seq<char>, bool),
    singles: Set<Seq<char>>,
    n: int,
) -> bool {
    &&& 1 <= n <= 9
    &&& n < key.len()
    &&& text::byte_len(key.take(n)) <= 10
    &&& t.has_key(key.take(n))
    &&& answers(key.take(n), seg, singles)
}

/// Whether a key can be cut into known keys, one to answer each segment.
pub open spec fn mixed_match(
    t: TrieView,
    key: Seq<char>,
    segs: Seq<(Seq<char>, bool)>,
    singles: Set<Seq<char>>,
) -> bool
    decreases segs.len(),
{
    if segs.len() == 0 {
        key.len() == 0
    } else {
        ||| exists|n: int| #[trigger] mixed_cut(t, key, segs[0], singles, n) && mixed_match(
            t,
            key.skip(n),
            segs.drop_first(),
            singles,
        )
        ||| key.len() > 0 && segs.len() == 1 && t.has_key(key) && answers(key, segs[0], singles)
    }
}

/// The segments of a list: a text, and whether it is an initial.
pub open spec fn segments(v: Seq<(String, bool)>) -> Seq<(Seq<char>, bool)> {
    v.map_values(|s: (String, bool)| (s.0@, s.1))
}

impl TrieView {
    /// The entries under the keys that a pattern fits, each word once, up to a limit that
    /// counts as at least one.
    pub open spec fn wildcard(self, pattern: Seq<char>, limit: int, level: Option<Seq<char>>) -> Seq<
        Entry,
    > {
        let keys = self.keys_from(wildcard_stem(pattern)).filter(wildcard_key(pattern));
        let all = fresh(blocks(self.data, keys)).filter(on_level(level));
        all.take(least(most(1, limit), all.len() as int))
    }

    /// The entries under the keys that can be cut along the segments, each word once.
    pub open spec fn abbreviation(self, segs: Seq<Seq<char>>) -> Seq<Entry> {
        if segs.len() == 0 {
            Seq::empty()
        } else {
            let keys = self.keys_from(segs[0]).filter(
                |k: (Seq<u8>, u64)| strict_match(self, key_text(k.0), segs),
            );
            let all = fresh(blocks(self.data, keys));
            all.take(least(ABBREVIATION_SCAN_LIMIT as int, all.len() as int))
        }
    }

    /// The entries under the keys that can be cut so as to answer the segments, each word
    /// once.
    pub open spec fn abbreviation_mixed(
        self,
        segs: Seq<(Seq<char>, bool)>,
        singles: Set<Seq<char>>,
    ) -> Seq<Entry> {
        if segs.len() == 0 {
            Seq::empty()
        } else {
            let keys = self.keys_from(segs[0].0).filter(
                |k: (Seq<u8>, u64)| mixed_match(self, key_text(k.0), segs, singles),
            );
            let all = fresh(blocks(self.data, keys));
            all.take(least(ABBREVIATION_SCAN_LIMIT as int, all.len() as int))
        }
    }
}


/// Marks the keys that are texts and fit a wildcard pattern.
fn wildcard_keys(keys: &Vec<(Vec<u8>, u64)>, pattern: &str) -> (r: Vec<(Vec<u8>, u64)>)
    ensures
        index::pairs_of(r@) == index::pairs_of(keys@).filter(wildcard_key(pattern@)),
{
    let p = pattern.as_bytes();
    let ghost ks = index::pairs_of(keys@);
    let ghost want = wildcard_key(pattern@);
    let mut out: Vec<(Vec<u8>, u64)> = Vec::new();
    let mut i: usize = 0;
    proof {
        assert(ks.take(0) =~= Seq::<(Seq<u8>, u64)>::empty());
        assert(index::pairs_of(out@) =~= Seq::<(Seq<u8>, u64)>::empty());
        reveal(Seq::filter);
    }
    while i < keys.len()
        invariant
            i <= keys.len(),
            ks == index::pairs_of(keys@),
            want == wildcard_key(pattern@),
            p@ == encode_utf8(pattern@),
            index::pairs_of(out@) == ks.take(i as int).filter(want),
        decreases keys.len() - i,
    {
        let k = keys[i].0.as_slice();
        let fits = match utf8_str(k) {
            None => false,
            Some(t) => {
                proof {
                    encode_utf8_decode_utf8(t@);
                    decode_utf8_encode_utf8(k@);
                }
                fits_bytes(p, k)
            },
        };
        proof {
            assert(ks.take(i + 1).drop_last() =~= ks.take(i as int));
            assert(ks.take(i + 1).last() == (keys@[i as int].0@, keys@[i as int].1));
            reveal(Seq::filter);
        }
        if fits {
            let copy = copy_bytes(k);
            let ghost pair = (copy, keys@[i as int].1);
            proof {
                assert(index::pairs_of(out@.push(pair)) =~= index::pairs_of(out@).push(
                    (pair.0@, pair.1),
                ));
            }
            out.push((copy, keys[i].1));
        }
        i = i + 1;
    }
    proof {
        assert(ks.take(ks.len() as int) =~= ks);
    }
    out
}

/// A copy of some bytes.
pub(crate) fn copy_bytes(b: &[u8]) -> (r: Vec<u8>)
    ensures
        r@ == b@,
{
    vstd::slice::slice_to_vec(b)
}

/// Whether each byte of a pattern is `z` or the byte at its place.
fn fits_bytes(p: &[u8], k: &[u8]) -> (r: bool)
    ensures
        r == (p@.len() <= k@.len() && forall|i: int|
            0 <= i < p@.len() ==> #[trigger] p@[i] == 122u8 || p@[i] == k@[i]),
{
    if p.len() > k.len() {
        return false;
    }
    let mut i: usize = 0;
    while i < p.len()
        invariant
            i <= p.len() <= k.len(),
            forall|j: int| 0 <= j < i ==> #[trigger] p@[j] == 122u8 || p@[j] == k@[j],
        decreases p.len() - i,
    {
        if p[i] != 122u8 && p[i] != k[i] {
            return false;
        }
        i = i + 1;
    }
    true
}

/// What stands before the first `z` of a pattern, or nothing where there is none.
fn stem_of(pattern: &str) -> (r: String)
    ensures
        r@ == wildcard_stem(pattern@),
{
    let v = chars_of(pattern);
    let mut out = String::new();
    let mut i: usize = 0;
    proof {
        assert(v@.skip(0) =~= v@);
        assert(out@ + text::up_to(v@, 'z') =~= text::up_to(v@, 'z'));
    }
    while i < v.len()
        invariant
            i <= v.len(),
            v@ == pattern@,
            out@ + text::up_to(v@.skip(i as int), 'z') == text::up_to(v@, 'z'),
            forall|j: int| 0 <= j < i ==> v@[j] != 'z',
        decreases v.len() - i,
    {
        if v[i] == 'z' {
            proof {
                assert(v@.contains(v@[i as int]));
                assert(out@ + Seq::<char>::empty() =~= out@);
                assert(v@.skip(i as int)[0] == 'z');
            }
            return out;
        }
        proof {
            let r = v@.skip(i as int);
            assert(r[0] == v@[i as int]);
            assert(r.drop_first() =~= v@.skip(i + 1));
            assert(out@ + (seq![r[0]] + text::up_to(r.drop_first(), 'z')) =~= out@.push(v@[i as int])
                + text::up_to(v@.skip(i + 1), 'z'));
        }
        out.push(v[i]);
        i = i + 1;
    }
    String::new()
}

impl Trie {
    /// The entries behind some keys, each word once.
    fn gather<'a>(&'a self, keys: &Vec<(Vec<u8>, u64)>) -> (r: Vec<TrieResult<'a>>)
        ensures
            views(r@) == fresh(blocks(self@.data, index::pairs_of(keys@))),
    {
        let ghost ks = index::pairs_of(keys@);
        let ghost d = self@.data;
        let mut out: Vec<TrieResult<'a>> = Vec::new();
        let mut seen = WordSet::new();
        let mut i: usize = 0;
        proof {
            assert(ks.take(0) =~= Seq::<(Seq<u8>, u64)>::empty());
            assert(views(out@) =~= fresh(Seq::<Entry>::empty()));
        }
        while i < keys.len()
            invariant
                i <= keys.len(),
                ks == index::pairs_of(keys@),
                d == self@.data,
                views(out@) == fresh(blocks(d, ks.take(i as int))),
                forall|w: Seq<char>|
                    seen@.contains(w) <==> has_word(blocks(d, ks.take(i as int)), w),
            decreases keys.len() - i,
        {
            let b = self.read_block(keys[i].1);
            let ghost done = blocks(d, ks.take(i as int));
            let ghost bv = views(b@);
            let mut j: usize = 0;
            proof {
                assert(done + bv.take(0) =~= done);
            }
            while j < b.len()
                invariant
                    j <= b.len(),
                    bv == views(b@),
                    views(out@) == fresh(done + bv.take(j as int)),
                    forall|w: Seq<char>|
                        seen@.contains(w) <==> has_word(done + bv.take(j as int), w),
                decreases b.len() - j,
            {
                let e = b[j];
                let ghost was = done + bv.take(j as int);
                let ghost now = done + bv.take(j + 1);
                proof {
                    assert(now.drop_last() =~= was);
                    assert(now.last() == e@);
                    assert forall|w: Seq<char>| has_word(now, w) <==> has_word(was, w) || w == e@.word by {
                        if has_word(was, w) {
                            let x = choose|x: int| 0 <= x < was.len() && (#[trigger] was[x]).word == w;
                            assert(now[x].word == w);
                        }
                        if w == e@.word {
                            assert(now[now.len() - 1].word == w);
                        }
                        if has_word(now, w) && w != e@.word {
                            let x = choose|x: int| 0 <= x < now.len() && (#[trigger] now[x]).word == w;
                            assert(was[x].word == w);
                        }
                    }
                }
                if seen.insert(e.word.to_owned()) {
                    proof {
                        assert(views(out@.push(e)) =~= views(out@).push(e@));
                    }
                    out.push(e);
                }
                j = j + 1;
            }
            proof {
                assert(bv.take(bv.len() as int) =~= bv);
                assert(ks.take(i + 1).drop_last() =~= ks.take(i as int));
                assert(ks.take(i + 1).last().1 == keys@[i as int].1);
            }
            i = i + 1;
        }
        proof {
            assert(ks.take(ks.len() as int) =~= ks);
        }
        out
    }

    /// The entries under a key; none where the key is unknown or has no entry.
    pub fn get_all_exact<'a>(&'a self, pinyin: &str) -> (r: Option<Vec<TrieResult<'a>>>)
        ensures
            r is Some <==> self@.exact(pinyin@).len() > 0,
            r matches Some(v) ==> views(v@) == self@.exact(pinyin@),
    {
        match self.offset_of(pinyin) {
            None => None,
            Some(o) => {
                let v = self.read_block(o);
                if v.len() == 0 {
                    None
                } else {
                    Some(v)
                }
            },
        }
    }

    /// The entries under a key whose stroke column is as asked.
    pub fn get_all_exact_with_level_filter<'a>(
        &'a self,
        pinyin: &str,
        level_filter: Option<&str>,
    ) -> (r: Option<Vec<TrieResult<'a>>>)
        ensures
            r is Some <==> self@.exact_on_level(pinyin@, opt_text(level_filter)).len() > 0,
            r matches Some(v) ==> views(v@) == self@.exact_on_level(
                pinyin@,
                opt_text(level_filter),
            ),
    {
        match self.offset_of(pinyin) {
            None => {
                proof {
                    reveal(Seq::filter);
                }
                None
            },
            Some(o) => {
                let v = keep_level(self.read_block(o), level_filter);
                if v.len() == 0 {
                    None
                } else {
                    Some(v)
                }
            },
        }
    }

    /// Whether some key begins with a text.
    pub fn has_prefix(&self, prefix: &str) -> (r: bool)
        ensures
            r == self@.begins(prefix@),
    {
        let keys = self.keys_with_prefix(prefix);
        let ghost ks = index::pairs_of(keys@);
        proof {
            if keys@.len() > 0 {
                let k = ks[0].0;
                assert(self@.index.contains_key(k) && index::bytes_begin(k, encode_utf8(prefix@)));
            }
        }
        keys.len() > 0
    }

    /// Whether some key begins with a text and goes on behind it.
    pub fn has_longer_match(&self, prefix: &str) -> (r: bool)
        ensures
            r == self@.goes_on(prefix@),
    {
        let keys = self.keys_with_prefix(prefix);
        let ghost ks = index::pairs_of(keys@);
        let n = prefix.as_bytes().len();
        let mut i: usize = 0;
        while i < keys.len()
            invariant
                i <= keys.len(),
                n == text::byte_len(prefix@),
                ks == index::pairs_of(keys@),
                index::lists(ks, self@.index, index::beginning_with(prefix@)),
                forall|j: int| 0 <= j < i ==> (#[trigger] ks[j]).0.len() <= n,
            decreases keys.len() - i,
        {
            proof {
                assert(ks[i as int].0 == keys@[i as int].0@);
            }
            if keys[i].0.len() > n {
                proof {
                    let k = ks[i as int].0;
                    assert(self@.index.contains_key(k) && index::bytes_begin(
                        k,
                        encode_utf8(prefix@),
                    ));
                }
                return true;
            }
            i = i + 1;
        }
        proof {
            assert forall|k: Seq<u8>| #[trigger]
                self@.index.contains_key(k) && index::bytes_begin(k, encode_utf8(prefix@)) implies k.len()
                <= n by {
                assert(index::beginning_with(prefix@)(k));
                let x = choose|x: int| 0 <= x < ks.len() && (#[trigger] ks[x]).0 == k;
                assert(ks[x].0.len() <= n);
            }
        }
        false
    }

    /// The first key under which a word stands first.
    pub fn lookup_pinyin(&self, word: &str) -> (r: Option<&str>)
        ensures
            r is Some <==> self@.word_pinyin().contains_key(word@),
            r matches Some(p) ==> p@ == self@.word_pinyin()[word@],
    {
        proof {
            use_type_invariant(self);
        }
        self.word_pinyin.get(word)
    }

    /// Whether a word stands under some key.
    pub fn has_word_in_dict(&self, word: &str) -> (r: bool)
        ensures
            r == self@.holds(word@),
    {
        proof {
            use_type_invariant(self);
        }
        self.words.contains(word)
    }

    /// The heaviest entries under the keys that begin with a text. A limit of zero is none.
    pub fn search_bfs<'a>(&'a self, prefix: &str, limit: usize) -> (r: Vec<TrieResult<'a>>)
        ensures
            views(r@) == self@.bfs(prefix@, limit as int, None),
    {
        self.search_bfs_with_level_filter(prefix, limit, None)
    }

    /// The heaviest entries under the keys that begin with a text, of those whose stroke
    /// column is as asked. A limit of zero is none.
    pub fn search_bfs_with_level_filter<'a>(
        &'a self,
        prefix: &str,
        limit: usize,
        level_filter: Option<&str>,
    ) -> (r: Vec<TrieResult<'a>>)
        ensures
            views(r@) == self@.bfs(prefix@, limit as int, opt_text(level_filter)),
    {
        let keys = self.keys_with_prefix(prefix);
        let mut all = keep_level(self.gather(&keys), level_filter);
        if limit == 0 {
            return all;
        }
        let ghost av = views(all@);
        sort_by_weight(&mut all);
        proof {
            crate::order::law_arranged_keeps_items(av, heavier());
        }
        let ghost sorted = all@;
        if limit < all.len() {
            all.truncate(limit);
        }
        proof {
            assert(views(all@) =~= views(sorted).take(least(limit as int, av.len() as int)));
        }
        all
    }

    /// The entries under the keys that a pattern fits, in which `z` stands for any byte.
    pub fn search_wildcard<'a>(&'a self, pattern: &str, limit: usize) -> (r: Vec<TrieResult<'a>>)
        ensures
            views(r@) == self@.wildcard(pattern@, limit as int, None),
    {
        self.search_wildcard_with_level_filter(pattern, limit, None)
    }

    /// The entries under the keys that a pattern fits, of those whose stroke column is as
    /// asked.
    pub fn search_wildcard_with_level_filter<'a>(
        &'a self,
        pattern: &str,
        limit: usize,
        level_filter: Option<&str>,
    ) -> (r: Vec<TrieResult<'a>>)
        ensures
            views(r@) == self@.wildcard(pattern@, limit as int, opt_text(level_filter)),
    {
        let stem = stem_of(pattern);
        let keys = wildcard_keys(&self.keys_with_prefix(stem.as_str()), pattern);
        let mut all = keep_level(self.gather(&keys), level_filter);
        let ghost av = all@;
        let cap: usize = if limit < 1 {
            1
        } else {
            limit
        };
        if cap < all.len() {
            all.truncate(cap);
        }
        proof {
            assert(views(all@) =~= views(av).take(least(most(1, limit as int), av.len() as int)));
        }
        all
    }
}


impl Trie {
    /// Whether a key can be cut into known keys, one for each segment and beginning with it.
    fn recursive_strict_match(&self, key: &[char], segs: &[String]) -> (r: bool)
        ensures
            r == strict_match(self@, key@, text::texts(segs@)),
        decreases segs@.len(),
    {
        let ghost t = self@;
        let ghost k = key@;
        let ghost ss = text::texts(segs@);
        if segs.len() == 0 {
            return key.len() == 0;
        }
        let first = &segs[0];
        let rest = vstd::slice::slice_subrange(segs, 1, segs.len());
        proof {
            assert(text::texts(rest@) =~= ss.drop_first());
            assert(ss[0] == first@);
        }
        if key.len() == 0 {
            return false;
        }
        let mut n: usize = 1;
        while n < key.len() && n <= 9
            invariant
                1 <= n <= 10,
                n <= key@.len(),
                k == key@,
                t == self@,
                ss == text::texts(segs@),
                ss.len() == segs@.len() > 0,
                ss[0] == first@,
                text::texts(rest@) == ss.drop_first(),
                rest@.len() == segs@.len() - 1,
                forall|m: int|
                    1 <= m < n ==> !(#[trigger] strict_cut(t, k, ss[0], m) && strict_match(
                        t,
                        k.skip(m),
                        ss.drop_first(),
                    )),
            decreases key@.len() - n,
        {
            let syl = string_of(vstd::slice::slice_subrange(key, 0, n));
            proof {
                assert(syl@ =~= k.take(n as int));
            }
            if syl.as_str().as_bytes().len() <= 10 && self.contains_key(syl.as_str())
                && text::starts_with(syl.as_str(), first.as_str()) {
                let tail = vstd::slice::slice_subrange(key, n, key.len());
                proof {
                    assert(tail@ =~= k.skip(n as int));
                    assert(strict_cut(t, k, ss[0], n as int));
                }
                if self.recursive_strict_match(tail, rest) {
                    return true;
                }
            }
            n = n + 1;
        }
        if segs.len() == 1 {
            let whole = string_of(key);
            return self.contains_key(whole.as_str()) && text::starts_with(
                whole.as_str(),
                first.as_str(),
            );
        }
        false
    }

    /// Whether a syllable answers a segment.
    fn answers_segment(syl: &str, seg: &(String, bool), singles: &WordSet) -> (r: bool)
        ensures
            r == answers(syl@, (seg.0@, seg.1), singles@),
    {
        if seg.1 {
            (singles.is_empty() || singles.contains(syl)) && text::starts_with(syl, seg.0.as_str())
        } else {
            same_text(syl, seg.0.as_str())
        }
    }

    /// Whether a key can be cut into known keys, one to answer each segment.
    fn recursive_mixed_match(&self, key: &[char], segs: &[(String, bool)], singles: &WordSet) -> (r:
        bool)
        ensures
            r == mixed_match(self@, key@, segments(segs@), singles@),
        decreases segs@.len(),
    {
        let ghost t = self@;
        let ghost k = key@;
        let ghost ss = segments(segs@);
        if segs.len() == 0 {
            return key.len() == 0;
        }
        let first = &segs[0];
        let rest = vstd::slice::slice_subrange(segs, 1, segs.len());
        proof {
            assert(segments(rest@) =~= ss.drop_first());
            assert(ss[0] == (first.0@, first.1));
        }
        if key.len() == 0 {
            return false;
        }
        let mut n: usize = 1;
        while n < key.len() && n <= 9
            invariant
                1 <= n <= 10,
                n <= key@.len(),
                k == key@,
                t == self@,
                ss == segments(segs@),
                ss.len() == segs@.len() > 0,
                ss[0] == (first.0@, first.1),
                segments(rest@) == ss.drop_first(),
                rest@.len() == segs@.len() - 1,
                forall|m: int|
                    1 <= m < n ==> !(#[trigger] mixed_cut(t, k, ss[0], singles@, m) && mixed_match(
                        t,
                        k.skip(m),
                        ss.drop_first(),
                        singles@,
                    )),
            decreases key@.len() - n,
        {
            let syl = string_of(vstd::slice::slice_subrange(key, 0, n));
            proof {
                assert(syl@ =~= k.take(n as int));
            }
            if syl.as_str().as_bytes().len() <= 10 && self.contains_key(syl.as_str())
                && Trie::answers_segment(syl.as_str(), first, singles) {
                let tail = vstd::slice::slice_subrange(key, n, key.len());
                proof {
                    assert(tail@ =~= k.skip(n as int));
                    assert(mixed_cut(t, k, ss[0], singles@, n as int));
                }
                if self.recursive_mixed_match(tail, rest, singles) {
                    return true;
                }
            }
            n = n + 1;
        }
        if segs.len() == 1 {
            let whole = string_of(key);
            return self.contains_key(whole.as_str()) && Trie::answers_segment(
                whole.as_str(),
                first,
                singles,
            );
        }
        false
    }

    /// The entries under the keys that can be cut along the segments: the number of segments
    /// is the number of syllables.
    pub fn search_abbreviation<'a>(&'a self, segs: &[String], _limit: usize) -> (r: Vec<TrieResult<'a>>)
        ensures
            views(r@) == self@.abbreviation(text::texts(segs@)),
    {
        if segs.len() == 0 {
            let none: Vec<TrieResult<'a>> = Vec::new();
            proof {
                assert(views(none@) =~= Seq::<Entry>::empty());
            }
            return none;
        }
        let ghost t = self@;
        let ghost ss = text::texts(segs@);
        let ghost want = |k: (Seq<u8>, u64)| strict_match(t, key_text(k.0), ss);
        let keys = self.keys_with_prefix(segs[0].as_str());
        let ghost ks = index::pairs_of(keys@);
        let mut found: Vec<(Vec<u8>, u64)> = Vec::new();
        let mut i: usize = 0;
        proof {
            assert(ss[0] == segs@[0]@);
            assert(ks.take(0) =~= Seq::<(Seq<u8>, u64)>::empty());
            assert(index::pairs_of(found@) =~= Seq::<(Seq<u8>, u64)>::empty());
            reveal(Seq::filter);
        }
        while i < keys.len()
            invariant
                i <= keys.len(),
                t == self@,
                ss == text::texts(segs@),
                ks == index::pairs_of(keys@),
                want == (|k: (Seq<u8>, u64)| strict_match(t, key_text(k.0), ss)),
                index::pairs_of(found@) == ks.take(i as int).filter(want),
            decreases keys.len() - i,
        {
            let key = chars_of(text_of_key(keys[i].0.as_slice()).as_str());
            proof {
                assert(ks.take(i + 1).drop_last() =~= ks.take(i as int));
                assert(ks.take(i + 1).last() == (keys@[i as int].0@, keys@[i as int].1));
                reveal(Seq::filter);
            }
            if self.recursive_strict_match(key.as_slice(), segs) {
                let pair = (copy_bytes(keys[i].0.as_slice()), keys[i].1);
                proof {
                    assert(index::pairs_of(found@.push(pair)) =~= index::pairs_of(found@).push(
                        (pair.0@, pair.1),
                    ));
                }
                found.push(pair);
            }
            i = i + 1;
        }
        proof {
            assert(ks.take(ks.len() as int) =~= ks);
        }
        let mut all = self.gather(&found);
        let ghost av = all@;
        if ABBREVIATION_SCAN_LIMIT < all.len() {
            all.truncate(ABBREVIATION_SCAN_LIMIT);
        }
        proof {
            assert(views(all@) =~= views(av).take(
                least(ABBREVIATION_SCAN_LIMIT as int, av.len() as int),
            ));
        }
        all
    }

    /// The entries under the keys that can be cut so as to answer the segments.
    pub fn search_abbreviation_mixed<'a>(&'a self, segs: &[(String, bool)], _limit: usize, singles: &WordSet) -> (r:
        Vec<TrieResult<'a>>)
        ensures
            views(r@) == self@.abbreviation_mixed(segments(segs@), singles@),
    {
        if segs.len() == 0 {
            let none: Vec<TrieResult<'a>> = Vec::new();
            proof {
                assert(views(none@) =~= Seq::<Entry>::empty());
            }
            return none;
        }
        let ghost t = self@;
        let ghost ss = segments(segs@);
        let ghost sing = singles@;
        let ghost want = |k: (Seq<u8>, u64)| mixed_match(t, key_text(k.0), ss, sing);
        let keys = self.keys_with_prefix(segs[0].0.as_str());
        let ghost ks = index::pairs_of(keys@);
        let mut found: Vec<(Vec<u8>, u64)> = Vec::new();
        let mut i: usize = 0;
        proof {
            assert(ss[0].0 == segs@[0].0@);
            assert(ks.take(0) =~= Seq::<(Seq<u8>, u64)>::empty());
            assert(index::pairs_of(found@) =~= Seq::<(Seq<u8>, u64)>::empty());
            reveal(Seq::filter);
        }
        while i < keys.len()
            invariant
                i <= keys.len(),
                t == self@,
                ss == segments(segs@),
                sing == singles@,
                ks == index::pairs_of(keys@),
                want == (|k: (Seq<u8>, u64)| mixed_match(t, key_text(k.0), ss, sing)),
                index::pairs_of(found@) == ks.take(i as int).filter(want),
            decreases keys.len() - i,
        {
            let key = chars_of(text_of_key(keys[i].0.as_slice()).as_str());
            proof {
                assert(ks.take(i + 1).drop_last() =~= ks.take(i as int));
                assert(ks.take(i + 1).last() == (keys@[i as int].0@, keys@[i as int].1));
                reveal(Seq::filter);
            }
            if self.recursive_mixed_match(key.as_slice(), segs, singles) {
                let pair = (copy_bytes(keys[i].0.as_slice()), keys[i].1);
                proof {
                    assert(index::pairs_of(found@.push(pair)) =~= index::pairs_of(found@).push(
                        (pair.0@, pair.1),
                    ));
                }
                found.push(pair);
            }
            i = i + 1;
        }
        proof {
            assert(ks.take(ks.len() as int) =~= ks);
        }
        let mut all = self.gather(&found);
        let ghost av = all@;
        if ABBREVIATION_SCAN_LIMIT < all.len() {
            all.truncate(ABBREVIATION_SCAN_LIMIT);
        }
        proof {
            assert(views(all@) =~= views(av).take(
                least(ABBREVIATION_SCAN_LIMIT as int, av.len() as int),
            ));
        }
        all
    }

    /// The words of the entries whose lowest flag is set.
    pub fn build_rare_chars(&self) -> (r: WordSet)
        ensures
            forall|w: Seq<char>| r@.contains(w) <==> is_rare(self@, w),
    {
        let keys = self.keys_with_prefix("");
        let ghost ks = index::pairs_of(keys@);
        let ghost d = self@.data;
        proof {
            reveal_strlit("");
            assert(""@ =~= Seq::<char>::empty());
            assert(ks.take(0) =~= Seq::<(Seq<u8>, u64)>::empty());
        }
        let mut set = WordSet::new();
        let mut i: usize = 0;
        while i < keys.len()
            invariant
                i <= keys.len(),
                d == self@.data,
                ks == index::pairs_of(keys@),
                forall|w: Seq<char>| set@.contains(w) <==> rare_in(blocks(d, ks.take(i as int)), w),
            decreases keys.len() - i,
        {
            let b = self.read_block(keys[i].1);
            let ghost done = blocks(d, ks.take(i as int));
            let ghost bv = views(b@);
            let mut j: usize = 0;
            proof {
                assert(done + bv.take(0) =~= done);
            }
            while j < b.len()
                invariant
                    j <= b.len(),
                    bv == views(b@),
                    forall|w: Seq<char>| set@.contains(w) <==> rare_in(done + bv.take(j as int), w),
                decreases b.len() - j,
            {
                let e = b[j];
                let ghost was = done + bv.take(j as int);
                let ghost now = done + bv.take(j + 1);
                let rare = e.flags & 1 != 0;
                proof {
                    assert(now =~= was.push(e@));
                    assert forall|w: Seq<char>| rare_in(now, w) <==> rare_in(was, w) || (w == e@.word
                        && rare) by {
                        if rare_in(was, w) {
                            let x = choose|x: int|
                                0 <= x < was.len() && (#[trigger] was[x]).word == w && was[x].flags & 1 != 0;
                            assert(now[x].word == w);
                        }
                        if w == e@.word && rare {
                            assert(now[now.len() - 1].word == w);
                        }
                        if rare_in(now, w) && !rare_in(was, w) {
                            let x = choose|x: int|
                                0 <= x < now.len() && (#[trigger] now[x]).word == w && now[x].flags & 1 != 0;
                            if x < was.len() {
                                assert(was[x].word == w);
                            }
                        }
                    }
                }
                if rare {
                    set.insert(e.word.to_owned());
                }
                j = j + 1;
            }
            proof {
                assert(bv.take(bv.len() as int) =~= bv);
                assert(ks.take(i + 1).drop_last() =~= ks.take(i as int));
                assert(ks.take(i + 1).last().1 == keys@[i as int].1);
            }
            i = i + 1;
        }
        proof {
            assert(ks.take(ks.len() as int) =~= ks);
        }
        set
    }
}

/// Whether a word occurs among entries with the lowest flag set.
pub open spec fn rare_in(s: Seq<Entry>, w: Seq<char>) -> bool {
    exists|i: int| 0 <= i < s.len() && (#[trigger] s[i]).word == w && s[i].flags & 1 != 0
}

/// Whether a dictionary holds a word as a rare one.
pub open spec fn is_rare(t: TrieView, w: Seq<char>) -> bool {
    rare_in(blocks(t.data, t.keys_from(Seq::empty())), w)
}

} // verus!
