//! Cutting typed letters into syllables.

use vstd::prelude::*;
use vstd::utf8::*;
use crate::tables::{FreqTable, WordSet};
use crate::text;
use crate::text::{chars_of, split_at_any, sub_str, to_lower, utf8_str};

verus! {

/// The longest piece, in bytes, that is held against the tables.
pub const MAX_PIECE: usize = 12;

/// What is known of syllables: how often each occurs, and which are basic.
pub struct Syllables {
    pub freq: Map<Seq<char>, u64>,
    pub base: Set<Seq<char>>,
}

/// Two neighbouring bytes exchanged.
pub open spec fn swapped(b: Seq<u8>, i: int) -> Seq<u8> {
    b.update(i, b[i + 1]).update(i + 1, b[i])
}

/// The first known syllable that comes out of exchanging two neighbouring letters, from the
/// place `i` on, with half its frequency; a basic syllable has none.
pub open spec fn transposed(t: Syllables, part: Seq<char>, i: int) -> Option<(u64, Seq<char>)>
    decreases encode_utf8(part).len() - i,
{
    let b = encode_utf8(part);
    if i < 0 || i + 1 >= b.len() {
        None
    } else {
        let x = swapped(b, i);
        if valid_utf8(x) && t.freq.contains_key(decode_utf8(x)) {
            Some((t.freq[decode_utf8(x)] / 2, decode_utf8(x)))
        } else if valid_utf8(x) && t.base.contains(decode_utf8(x)) {
            Some((0, decode_utf8(x)))
        } else {
            transposed(t, part, i + 1)
        }
    }
}

/// What a piece of the input is worth: its frequency, and its corrected text where two letters
/// had to be exchanged. A single byte is worth nothing, but is a piece.
pub open spec fn piece(t: Syllables, input: Seq<char>, i: int, j: int) -> Option<
    (u64, Option<Seq<char>>),
> {
    let part = text::between(input, i, j);
    if t.freq.contains_key(part) {
        Some((t.freq[part], None))
    } else if t.base.contains(part) || j - i == 1 {
        Some((0, None))
    } else {
        match transposed(t, part, 0) {
            Some((f, x)) => Some((f, Some(x))),
            None => None,
        }
    }
}

/// The best way found to a position: the total frequency, the number of pieces and the
/// position before, and the corrected text of the piece that ends there.
pub struct Slot {
    pub best: Option<(int, int, int)>,
    pub fix: Seq<char>,
}

/// A slot after the way over a position was tried: more frequency wins, then fewer pieces.
pub open spec fn relaxed(
    slot: Slot,
    over: Option<(int, int, int)>,
    at: int,
    p: Option<(u64, Option<Seq<char>>)>,
) -> Slot {
    match (over, p) {
        (Some((f, n, _)), Some((pf, fix))) => {
            let total = f + pf;
            let better = match slot.best {
                None => true,
                Some((bf, bn, _)) => total > bf || (total == bf && n + 1 < bn),
            };
            if better {
                Slot {
                    best: Some((total, n + 1, at)),
                    fix: match fix {
                        Some(x) => x,
                        None => Seq::empty(),
                    },
                }
            } else {
                slot
            }
        },
        _ => slot,
    }
}

/// The best way to a position.
pub open spec fn slot(t: Syllables, input: Seq<char>, k: int) -> Slot
    decreases k, k + 1,
{
    if k <= 0 {
        Slot { best: Some((0, 0, 0)), fix: Seq::empty() }
    } else {
        slot_over(t, input, k, k)
    }
}

/// The best way to a position over the positions before `m`.
pub open spec fn slot_over(t: Syllables, input: Seq<char>, k: int, m: int) -> Slot
    decreases k, m,
{
    if m <= 0 || m > k {
        Slot { best: None, fix: Seq::empty() }
    } else {
        let before = slot_over(t, input, k, m - 1);
        if k - (m - 1) <= MAX_PIECE && text::on_boundary(input, k) {
            relaxed(before, slot(t, input, m - 1).best, m - 1, piece(t, input, m - 1, k))
        } else {
            before
        }
    }
}

/// The last character boundary before a position.
pub open spec fn boundary_before(input: Seq<char>, k: int) -> int
    decreases k,
{
    if k <= 1 {
        0
    } else if text::on_boundary(input, k - 1) {
        k - 1
    } else {
        boundary_before(input, k - 1)
    }
}

/// The pieces on the best way to a position.
pub open spec fn way(t: Syllables, input: Seq<char>, k: int) -> Seq<Seq<char>>
    decreases k,
    when 0 <= k
    via way_ends
{
    if k <= 0 {
        Seq::empty()
    } else {
        let s = slot(t, input, k);
        match s.best {
            Some((_, _, prev)) => way(t, input, prev).push(
                if s.fix.len() > 0 {
                    s.fix
                } else {
                    text::between(input, prev, k)
                },
            ),
            None => {
                let prev = boundary_before(input, k);
                way(t, input, prev).push(text::between(input, prev, k))
            },
        }
    }
}

#[via_fn]
proof fn way_ends(t: Syllables, input: Seq<char>, k: int) {
    if k > 0 {
        lemma_slot(t, input, k);
        lemma_boundary_before(input, k);
    }
}

proof fn lemma_boundary_before(input: Seq<char>, k: int)
    requires
        k > 0,
    ensures
        0 <= boundary_before(input, k) < k,
        text::on_boundary(input, boundary_before(input, k)),
    decreases k,
{
    encode_utf8_valid_utf8(input);
    if k > 1 && !text::on_boundary(input, k - 1) {
        lemma_boundary_before(input, k - 1);
    }
}

/// The position before is a position before, and ways lead to boundaries only.
proof fn lemma_slot_over(t: Syllables, input: Seq<char>, k: int, m: int)
    requires
        0 <= m <= k,
        0 < k,
    ensures
        slot_over(t, input, k, m).best matches Some((f, n, prev)) ==> 0 <= prev < m && text::on_boundary(
            input,
            k,
        ) && text::on_boundary(input, prev) && k - prev <= MAX_PIECE && 0 <= f <= m * u64::MAX && 0 <= n <= m,
        slot_over(t, input, k, m).best is None ==> slot_over(t, input, k, m).fix == Seq::<char>::empty(),
    decreases k, m,
{
    if m > 0 {
        lemma_slot_over(t, input, k, m - 1);
        if m - 1 > 0 {
            lemma_slot(t, input, m - 1);
        } else {
            encode_utf8_valid_utf8(input);
        }
    }
}

proof fn lemma_slot(t: Syllables, input: Seq<char>, k: int)
    requires
        0 < k,
    ensures
        slot(t, input, k).best matches Some((f, n, prev)) ==> 0 <= prev < k && text::on_boundary(
            input,
            k,
        ) && text::on_boundary(input, prev) && k - prev <= MAX_PIECE && 0 <= f <= k * u64::MAX && 0 <= n <= k,
    decreases k, k + 1,
{
    lemma_slot_over(t, input, k, k);
}

/// The pieces of the whole input.
pub open spec fn viterbi(t: Syllables, input: Seq<char>) -> Seq<Seq<char>> {
    way(t, input, text::byte_len(input) as int)
}


/// What is known of syllables, from the tables.
pub open spec fn known(freq: &FreqTable, base: &WordSet) -> Syllables {
    Syllables { freq: freq@, base: base@ }
}

/// Two neighbouring bytes exchanged.
fn swap_bytes(b: &[u8], i: usize) -> (r: Vec<u8>)
    requires
        i + 1 < b@.len(),
    ensures
        r@ == swapped(b@, i as int),
{
    let mut v = vstd::slice::slice_to_vec(b);
    let n = v.len();
    assert(i + 1 < n);
    v.set(i, b[i + 1]);
    v.set(i + 1, b[i]);
    v
}

/// A slot as it is kept: the best way and the corrected text.
spec fn kept(best: Option<(u128, usize, usize)>, fix: String) -> Slot {
    Slot {
        best: match best {
            Some((f, n, p)) => Some((f as int, n as int, p as int)),
            None => None,
        },
        fix: fix@,
    }
}

/// The default way to cut letters into syllables.
pub struct DefaultSegmentor;

impl DefaultSegmentor {
    /// Looks for a known syllable that comes out of exchanging two neighbouring letters.
    fn try_transpose(part: &str, freq: &FreqTable, base: &WordSet) -> (r: Option<(u64, String)>)
        ensures
            r is Some <==> transposed(known(freq, base), part@, 0) is Some,
            r matches Some((f, x)) ==> transposed(known(freq, base), part@, 0) == Some((f, x@)),
    {
        let b = part.as_bytes();
        let ghost t = known(freq, base);
        if b.len() == 0 {
            return None;
        }
        let mut i: usize = 0;
        while i < b.len() - 1
            invariant
                i <= b.len() - 1,
                0 < b.len(),
                b@ == encode_utf8(part@),
                t == known(freq, base),
                transposed(t, part@, 0) == transposed(t, part@, i as int),
            decreases b.len() - i,
        {
            let x = swap_bytes(b, i);
            match utf8_str(x.as_slice()) {
                Some(c) => {
                    proof {
                        encode_utf8_decode_utf8(c@);
                    }
                    match freq.get(c) {
                        Some(f) => {
                            return Some((f / 2, c.to_owned()));
                        },
                        None => {},
                    }
                    if base.contains(c) {
                        return Some((0, c.to_owned()));
                    }
                },
                None => {},
            }
            i = i + 1;
        }
        None
    }

    /// What a piece of the input is worth.
    fn weigh(input: &str, i: usize, j: usize, freq: &FreqTable, base: &WordSet) -> (r: Option<
        (u64, Option<String>),
    >)
        requires
            i < j <= text::byte_len(input@),
            text::on_boundary(input@, i as int),
            text::on_boundary(input@, j as int),
        ensures
            r is Some <==> piece(known(freq, base), input@, i as int, j as int) is Some,
            r matches Some((f, fix)) ==> piece(known(freq, base), input@, i as int, j as int) == Some(
                (
                    f,
                    match fix {
                        Some(x) => Some(x@),
                        None => None,
                    },
                ),
            ),
    {
        let part = sub_str(input, i, j);
        match freq.get(part) {
            Some(f) => {
                return Some((f, None));
            },
            None => {},
        }
        if base.contains(part) || j - i == 1 {
            return Some((0, None));
        }
        match Self::try_transpose(part, freq, base) {
            Some((f, x)) => Some((f, Some(x))),
            None => None,
        }
    }

    /// Cuts the input along the way with the highest total frequency, and among those with the
    /// fewest pieces. Letters exchanged by a slip of the fingers are put right on the way.
    pub fn viterbi_segment(input: &str, syllable_freq: &FreqTable, base_syllables: &WordSet) -> (r:
        Vec<String>)
        ensures
            text::texts(r@) == viterbi(known(syllable_freq, base_syllables), input@),
    {
        let n = input.as_bytes().len();
        let ghost t = known(syllable_freq, base_syllables);
        let ghost s = input@;
        let mut out: Vec<String> = Vec::new();
        if n == 0 {
            proof {
                assert(text::texts(out@) =~= Seq::<Seq<char>>::empty());
            }
            return out;
        }
        proof {
            encode_utf8_valid_utf8(s);
            lemma_end_is_boundary(s);
        }
        let mut dp: Vec<Option<(u128, usize, usize)>> = Vec::new();
        let mut fixes: Vec<String> = Vec::new();
        let mut z: usize = 0;
        while z < n
            invariant
                z <= n,
                n == text::byte_len(s),
                dp@.len() == z,
                fixes@.len() == z,
                forall|k: int|
                    0 <= k < z ==> #[trigger] kept(dp@[k], fixes@[k]) == (if k == 0 {
                        slot(t, s, 0)
                    } else {
                        slot_over(t, s, k, 0)
                    }),
            decreases n - z,
        {
            dp.push(
                if z == 0 {
                    Some((0, 0, 0))
                } else {
                    None
                },
            );
            fixes.push(String::new());
            proof {
                assert forall|k: int| 0 <= k < z + 1 implies #[trigger] kept(dp@[k], fixes@[k]) == (if k
                    == 0 {
                    slot(t, s, 0)
                } else {
                    slot_over(t, s, k, 0)
                }) by {
                    if k < z {
                        assert(kept(dp@[k], fixes@[k]) == kept(dp@[k], fixes@[k]));
                    }
                }
            }
            z = z + 1;
        }
        dp.push(None);
        fixes.push(String::new());
        let mut i: usize = 0;
        while i < n
            invariant
                i <= n,
                n == text::byte_len(s),
                s == input@,
                t == known(syllable_freq, base_syllables),
                text::on_boundary(s, n as int),
                dp@.len() == n + 1,
                fixes@.len() == n + 1,
                forall|k: int|
                    0 <= k <= n ==> #[trigger] kept(dp@[k], fixes@[k]) == (if k <= i {
                        slot(t, s, k)
                    } else {
                        slot_over(t, s, k, i as int)
                    }),
            decreases n - i,
        {
            let ghost cell = slot(t, s, i as int);
            proof {
                assert(kept(dp@[i as int], fixes@[i as int]) == cell);
                encode_utf8_valid_utf8(s);
                if i > 0 {
                    lemma_slot(t, s, i as int);
                }
            }
            match dp[i] {
                None => {
                    proof {
                        assert(cell.best is None);
                        assert forall|k: int| i < k <= n implies slot_over(t, s, k, i + 1) == slot_over(
                            t,
                            s,
                            k,
                            i as int,
                        ) by {}
                    }
                },
                Some((cur_freq, cur_seg, _)) => {
                    let max_len: usize = if n - i < MAX_PIECE {
                        n - i
                    } else {
                        MAX_PIECE
                    };
                    let mut len: usize = 1;
                    while len <= max_len
                        invariant
                            1 <= len <= max_len + 1,
                            i < n,
                            n == text::byte_len(s),
                            s == input@,
                            t == known(syllable_freq, base_syllables),
                            max_len == (if n - i < MAX_PIECE {
                                n - i
                            } else {
                                MAX_PIECE as int
                            }),
                            text::on_boundary(s, i as int),
                            cell == slot(t, s, i as int),
                            cell.best matches Some((f, c, _)) && f == cur_freq && c == cur_seg,
                            cur_freq <= i * u64::MAX,
                            cur_seg <= i,
                            dp@.len() == n + 1,
                            fixes@.len() == n + 1,
                            forall|k: int|
                                0 <= k <= n ==> #[trigger] kept(dp@[k], fixes@[k]) == (if k <= i {
                                    slot(t, s, k)
                                } else if k < i + len {
                                    slot_over(t, s, k, i + 1)
                                } else {
                                    slot_over(t, s, k, i as int)
                                }),
                        decreases max_len + 1 - len,
                    {
                        let j: usize = i + len;
                        let ghost old_dp = dp@;
                        let ghost old_fixes = fixes@;
                        let ghost was = slot_over(t, s, j as int, i as int);
                        let ghost now = slot_over(t, s, j as int, i + 1);
                        proof {
                            assert(kept(dp@[j as int], fixes@[j as int]) == was);
                        }
                        if input.is_char_boundary(j) {
                            match Self::weigh(input, i, j, syllable_freq, base_syllables) {
                                Some((freq, fix)) => {
                                    let total: u128 = cur_freq + freq as u128;
                                    let count: usize = cur_seg + 1;
                                    let better = match dp[j] {
                                        None => true,
                                        Some((bf, bn, _)) => total > bf || (total == bf && count < bn),
                                    };
                                    if better {
                                        dp.set(j, Some((total, count, i)));
                                        match fix {
                                            Some(x) => {
                                                fixes.set(j, x);
                                            },
                                            None => {
                                                fixes.set(j, String::new());
                                            },
                                        }
                                    }
                                },
                                None => {},
                            }
                        }
                        proof {
                            assert(kept(dp@[j as int], fixes@[j as int]) == now);
                            assert forall|k: int| 0 <= k <= n implies #[trigger] kept(
                                dp@[k],
                                fixes@[k],
                            ) == (if k <= i {
                                slot(t, s, k)
                            } else if k < i + len + 1 {
                                slot_over(t, s, k, i + 1)
                            } else {
                                slot_over(t, s, k, i as int)
                            }) by {
                                if k != j {
                                    assert(dp@[k] == old_dp[k] && fixes@[k] == old_fixes[k]);
                                    assert(kept(old_dp[k], old_fixes[k]) == kept(dp@[k], fixes@[k]));
                                }
                            }
                        }
                        len = len + 1;
                    }
                },
            }
            proof {
                assert forall|k: int| 0 <= k <= n implies #[trigger] kept(dp@[k], fixes@[k]) == (if k <= i
                    + 1 {
                    slot(t, s, k)
                } else {
                    slot_over(t, s, k, i + 1)
                }) by {
                    if k > i + MAX_PIECE {
                        assert(slot_over(t, s, k, i + 1) == slot_over(t, s, k, i as int));
                    }
                }
            }
            i = i + 1;
        }
        let mut pos: usize = n;
        proof {
            assert(way(t, s, n as int) + text::texts(out@) =~= way(t, s, n as int));
        }
        while pos > 0
            invariant
                pos <= n,
                n == text::byte_len(s),
                s == input@,
                text::on_boundary(s, pos as int),
                dp@.len() == n + 1,
                fixes@.len() == n + 1,
                forall|k: int| 0 <= k <= n ==> #[trigger] kept(dp@[k], fixes@[k]) == slot(t, s, k),
                way(t, s, pos as int) + text::texts(out@) == way(t, s, n as int),
            decreases pos,
        {
            let ghost was = text::texts(out@);
            proof {
                assert(kept(dp@[pos as int], fixes@[pos as int]) == slot(t, s, pos as int));
                lemma_slot(t, s, pos as int);
                lemma_boundary_before(s, pos as int);
            }
            match dp[pos] {
                Some((_, _, prev)) => {
                    let seg = if !fixes[pos].as_str().is_empty() {
                        fixes[pos].clone()
                    } else {
                        sub_str(input, prev, pos).to_owned()
                    };
                    out.insert(0, seg);
                    proof {
                        assert(text::texts(out@) =~= seq![seg@] + was);
                        assert(way(t, s, prev as int) + (seq![seg@] + was) =~= way(t, s, prev as int).push(
                            seg@,
                        ) + was);
                    }
                    pos = prev;
                },
                None => {
                    let mut prev: usize = pos - 1;
                    while prev > 0 && !input.is_char_boundary(prev)
                        invariant
                            prev < pos <= n,
                            s == input@,
                            n == text::byte_len(s),
                            boundary_before(s, pos as int) == boundary_before(s, prev + 1),
                        decreases prev,
                    {
                        prev = prev - 1;
                    }
                    let seg = sub_str(input, prev, pos).to_owned();
                    out.insert(0, seg);
                    proof {
                        assert(text::texts(out@) =~= seq![seg@] + was);
                        assert(way(t, s, prev as int) + (seq![seg@] + was) =~= way(t, s, prev as int).push(
                            seg@,
                        ) + was);
                    }
                    pos = prev;
                },
            }
        }
        proof {
            assert(way(t, s, 0) + text::texts(out@) =~= text::texts(out@));
        }
        out
    }
}

pub proof fn lemma_end_is_boundary(s: Seq<char>)
    ensures
        text::on_boundary(s, text::byte_len(s) as int),
{
    encode_utf8_valid_utf8(s);
    lemma_end_of_bytes_is_boundary(encode_utf8(s));
}

proof fn lemma_end_of_bytes_is_boundary(b: Seq<u8>)
    requires
        valid_utf8(b),
    ensures
        is_char_boundary(b, b.len() as int),
    decreases b.len(),
{
    if b.len() > 0 {
        let rest = pop_first_scalar(b);
        lemma_end_of_bytes_is_boundary(rest);
        assert(rest.len() == b.len() - length_of_first_scalar(b));
    }
}


/// The pieces of the first `n` chunks, one after the other.
pub open spec fn chunk_pieces(t: Syllables, chunks: Seq<Seq<char>>, n: int) -> Seq<Seq<char>>
    decreases n,
{
    if n <= 0 || n > chunks.len() {
        Seq::empty()
    } else {
        chunk_pieces(t, chunks, n - 1) + viterbi(t, chunks[n - 1])
    }
}

/// The pieces of an input: in lower case, cut at the delimiters, and each part along its best
/// way.
pub open spec fn segmented(t: Syllables, input: Seq<char>, delimiters: Seq<char>) -> Seq<Seq<char>> {
    let chunks = text::fields(text::lowercase(input), delimiters);
    chunk_pieces(t, chunks, chunks.len() as int)
}

/// Something that cuts an input into syllables.
pub trait Segmentor {
    fn segment(
        &self,
        input: &str,
        syllables: &WordSet,
        delimiters: &str,
        syllable_freq: &FreqTable,
        base_syllables: &WordSet,
    ) -> Vec<String>;
}

impl Segmentor for DefaultSegmentor {
    /// Cuts an input into syllables. The set of all syllables is not asked.
    fn segment(
        &self,
        input: &str,
        syllables: &WordSet,
        delimiters: &str,
        syllable_freq: &FreqTable,
        base_syllables: &WordSet,
    ) -> (r: Vec<String>)
        ensures
            text::texts(r@) == segmented(known(syllable_freq, base_syllables), input@, delimiters@),
    {
        let lower = to_lower(input);
        Self::segment_lowercase(lower.as_str(), delimiters, syllable_freq, base_syllables)
    }
}

impl DefaultSegmentor {
    /// Cuts a lower-case input at the delimiters, and each part along its best way.
    fn segment_lowercase(
        input: &str,
        delimiters: &str,
        syllable_freq: &FreqTable,
        base_syllables: &WordSet,
    ) -> (r: Vec<String>)
        ensures
            text::texts(r@) == ({
                let chunks = text::fields(input@, delimiters@);
                chunk_pieces(known(syllable_freq, base_syllables), chunks, chunks.len() as int)
            }),
    {
        let ghost t = known(syllable_freq, base_syllables);
        let seps = chars_of(delimiters);
        let chunks = split_at_any(input, seps.as_slice());
        let ghost cs = text::texts(chunks@);
        let mut out: Vec<String> = Vec::new();
        let mut i: usize = 0;
        proof {
            assert(text::texts(out@) =~= Seq::<Seq<char>>::empty());
        }
        while i < chunks.len()
            invariant
                i <= chunks.len(),
                cs == text::texts(chunks@),
                t == known(syllable_freq, base_syllables),
                text::texts(out@) == chunk_pieces(t, cs, i as int),
            decreases chunks.len() - i,
        {
            let ghost before = text::texts(out@);
            let mut more = Self::viterbi_segment(chunks[i].as_str(), syllable_freq, base_syllables);
            let ghost mv = text::texts(more@);
            out.append(&mut more);
            proof {
                assert(cs[i as int] == chunks@[i as int]@);
                assert(text::texts(out@) =~= before + mv);
            }
            i = i + 1;
        }
        out
    }
}

/// The longest basic syllable of at most `len` bytes at a position, by its length in bytes.
pub open spec fn longest_base(base: Set<Seq<char>>, input: Seq<char>, pos: int, len: int) -> int
    decreases len,
{
    if len <= 0 {
        0
    } else if text::on_boundary(input, pos + len) && base.contains(
        text::between(input, pos, pos + len),
    ) {
        len
    } else {
        longest_base(base, input, pos, len - 1)
    }
}

/// The basic syllables from a position on, always the longest; the first place where there is
/// none ends the row.
pub open spec fn singles_from(base: Set<Seq<char>>, input: Seq<char>, pos: int, reach: int) -> Seq<
    Seq<char>,
>
    decreases text::byte_len(input) - pos,
{
    let n = text::byte_len(input) as int;
    if pos < 0 || pos >= n {
        Seq::empty()
    } else {
        let len = longest_base(base, input, pos, crate::trie::least(reach, n - pos));
        if len <= 0 || len > n - pos {
            Seq::empty()
        } else {
            seq![text::between(input, pos, pos + len)] + singles_from(base, input, pos + len, reach)
        }
    }
}

/// Some pieces joined.
pub open spec fn joined(s: Seq<Seq<char>>) -> Seq<char>
    decreases s.len(),
{
    if s.len() == 0 {
        Seq::empty()
    } else {
        joined(s.drop_last()) + s.last()
    }
}

/// The best score at a position over the positions before `m`, and the position before. A
/// syllable may stand alone, which is worth nothing, or two to four may be joined to a known
/// one, which is worth its frequency.
pub open spec fn merge_over(freq: Map<Seq<char>, u64>, segs: Seq<Seq<char>>, k: int, m: int) -> (
    int,
    int,
)
    decreases k, m,
{
    if m <= 0 || m > k {
        (0, 0)
    } else {
        let best = merge_over(freq, segs, k, m - 1);
        let i = m - 1;
        let here = merge_at(freq, segs, i).0;
        let py = joined(segs.subrange(i, k));
        if k - i == 1 {
            if here >= best.0 {
                (here, i)
            } else {
                best
            }
        } else if k - i <= 4 && freq.contains_key(py) && here + freq[py] > best.0 {
            (here + freq[py], i)
        } else {
            best
        }
    }
}

/// The best score at a position, and the position before.
pub open spec fn merge_at(freq: Map<Seq<char>, u64>, segs: Seq<Seq<char>>, k: int) -> (int, int)
    decreases k, k + 1,
{
    if k <= 0 {
        (0, 0)
    } else {
        merge_over(freq, segs, k, k)
    }
}

proof fn lemma_merge_over(freq: Map<Seq<char>, u64>, segs: Seq<Seq<char>>, k: int, m: int)
    requires
        0 <= m <= k,
        0 < k,
    ensures
        0 <= merge_over(freq, segs, k, m).0 <= m * u64::MAX,
        0 <= merge_over(freq, segs, k, m).1 < k,
    decreases k, m,
{
    if m > 0 {
        lemma_merge_over(freq, segs, k, m - 1);
        if m > 1 {
            lemma_merge_over(freq, segs, m - 1, m - 1);
            assert(merge_at(freq, segs, m - 1) == merge_over(freq, segs, m - 1, m - 1));
        } else {
            assert(merge_at(freq, segs, 0) == (0int, 0int));
        }
        assert(0 <= merge_at(freq, segs, m - 1).0 <= (m - 1) * u64::MAX);
        assert((m - 1) * u64::MAX + u64::MAX == m * u64::MAX) by (nonlinear_arith);
    }
}

/// The joined syllables on the best way to a position.
pub open spec fn merged_to(freq: Map<Seq<char>, u64>, segs: Seq<Seq<char>>, k: int) -> Seq<Seq<char>>
    decreases k,
    when 0 <= k
    via merged_ends
{
    if k <= 0 {
        Seq::empty()
    } else {
        let prev = merge_at(freq, segs, k).1;
        merged_to(freq, segs, prev).push(joined(segs.subrange(prev, k)))
    }
}

#[via_fn]
proof fn merged_ends(freq: Map<Seq<char>, u64>, segs: Seq<Seq<char>>, k: int) {
    if k > 0 {
        lemma_merge_over(freq, segs, k, k);
    }
}

/// The pieces of the two-pass cut: basic syllables, then neighbours joined where that gives the
/// highest total frequency.
pub open spec fn two_pass(t: Syllables, input: Seq<char>) -> Seq<Seq<char>> {
    let singles = singles_from(t.base, input, 0, 6);
    merged_to(t.freq, singles, singles.len() as int)
}

/// Joins the texts from one place of a list to another.
fn join_range(segs: &[String], i: usize, k: usize) -> (r: String)
    requires
        i <= k <= segs@.len(),
    ensures
        r@ == joined(text::texts(segs@).subrange(i as int, k as int)),
{
    let ghost s = text::texts(segs@);
    let mut out = String::new();
    let mut j: usize = i;
    proof {
        assert(s.subrange(i as int, i as int) =~= Seq::<Seq<char>>::empty());
    }
    while j < k
        invariant
            i <= j <= k <= segs@.len(),
            s == text::texts(segs@),
            out@ == joined(s.subrange(i as int, j as int)),
        decreases k - j,
    {
        proof {
            assert(s.subrange(i as int, j + 1).drop_last() =~= s.subrange(i as int, j as int));
            assert(s.subrange(i as int, j + 1).last() == segs@[j as int]@);
        }
        out.append(segs[j].as_str());
        j = j + 1;
    }
    out
}

impl DefaultSegmentor {
    /// The basic syllables of the input, always the longest of at most `reach` bytes, up to the
    /// first place where there is none.
    pub(crate) fn segment_greedy(input: &str, base_syllables: &WordSet, reach: usize) -> (r: Vec<String>)
        ensures
            text::texts(r@) == singles_from(base_syllables@, input@, 0, reach as int),
    {
        let n = input.as_bytes().len();
        let ghost s = input@;
        let ghost b = base_syllables@;
        let ghost all = singles_from(b, s, 0, reach as int);
        let mut out: Vec<String> = Vec::new();
        let mut pos: usize = 0;
        proof {
            encode_utf8_valid_utf8(s);
            assert(text::texts(out@) + all =~= all);
        }
        while pos < n
            invariant
                pos <= n,
                n == text::byte_len(s),
                s == input@,
                b == base_syllables@,
                text::on_boundary(s, pos as int),
                text::texts(out@) + singles_from(b, s, pos as int, reach as int) == all,
            ensures
                text::texts(out@) == all,
            decreases n - pos,
        {
            let mut len: usize = if n - pos < reach {
                n - pos
            } else {
                reach
            };
            let ghost top = len as int;
            while len > 0 && !(input.is_char_boundary(pos + len) && base_syllables.contains(
                sub_str(input, pos, pos + len),
            ))
                invariant
                    len <= top <= n - pos,
                    n == text::byte_len(s),
                    s == input@,
                    b == base_syllables@,
                    pos <= n,
                    text::on_boundary(s, pos as int),
                    longest_base(b, s, pos as int, top) == longest_base(b, s, pos as int, len as int),
                decreases len,
            {
                len = len - 1;
            }
            let ghost was = text::texts(out@);
            if len == 0 {
                proof {
                    assert(was + Seq::<Seq<char>>::empty() =~= was);
                }
                break ;
            }
            let seg = sub_str(input, pos, pos + len).to_owned();
            out.push(seg);
            proof {
                let rest = singles_from(b, s, pos + len, reach as int);
                assert(text::texts(out@) =~= was.push(seg@));
                assert(was + (seq![seg@] + rest) =~= was.push(seg@) + rest);
            }
            pos = pos + len;
            proof {
                if pos == n {
                    assert(text::texts(out@) + Seq::<Seq<char>>::empty() =~= text::texts(out@));
                }
            }
        }
        proof {
            if n == 0 {
                assert(text::texts(out@) =~= all);
            }
        }
        out
    }

    /// The basic syllables of the input, always the longest of at most six bytes.
    fn segment_single(input: &str, base_syllables: &WordSet) -> (r: Vec<String>)
        ensures
            text::texts(r@) == singles_from(base_syllables@, input@, 0, 6),
    {
        Self::segment_greedy(input, base_syllables, 6)
    }

    /// Joins neighbouring syllables where that gives the highest total frequency.
    pub fn merge_by_freq(segs: &[String], syll_freq: &FreqTable) -> (r: Vec<String>)
        ensures
            text::texts(r@) == merged_to(
                syll_freq@,
                text::texts(segs@),
                segs@.len() as int,
            ),
    {
        let n = segs.len();
        let ghost f = syll_freq@;
        let ghost s = text::texts(segs@);
        let mut dp: Vec<(u128, usize)> = Vec::new();
        let mut k: usize = 0;
        dp.push((0, 0));
        while k < n
            invariant
                k <= n,
                n == s.len(),
                s == text::texts(segs@),
                f == syll_freq@,
                dp@.len() == k + 1,
                forall|x: int|
                    0 <= x <= k ==> (#[trigger] dp@[x]).0 as int == merge_at(f, s, x).0 && dp@[x].1 as int
                        == merge_at(f, s, x).1,
            decreases n - k,
        {
            let q: usize = k + 1;
            let mut best: u128 = 0;
            let mut prev: usize = 0;
            let from: usize = if q > 4 {
                q - 4
            } else {
                0
            };
            let mut i: usize = from;
            proof {
                lemma_merge_far(f, s, q as int, from as int);
            }
            while i < q
                invariant
                    from <= i <= q,
                    q == k + 1,
                    q <= n,
                    n == s.len(),
                    s == text::texts(segs@),
                    f == syll_freq@,
                    from == (if q > 4 {
                        q - 4
                    } else {
                        0
                    }),
                    dp@.len() == k + 1,
                    forall|x: int|
                        0 <= x <= k ==> (#[trigger] dp@[x]).0 as int == merge_at(f, s, x).0
                            && dp@[x].1 as int == merge_at(f, s, x).1,
                    (best as int, prev as int) == merge_over(f, s, q as int, i as int),
                decreases q - i,
            {
                let here = dp[i].0;
                proof {
                    assert(dp@[i as int].0 as int == merge_at(f, s, i as int).0);
                    if i > 0 {
                        lemma_merge_over(f, s, i as int, i as int);
                    }
                }
                if q - i == 1 {
                    if here >= best {
                        best = here;
                        prev = i;
                    }
                } else {
                    let py = join_range(segs, i, q);
                    match syll_freq.get(py.as_str()) {
                        Some(freq) => {
                            let score: u128 = here + freq as u128;
                            if score > best {
                                best = score;
                                prev = i;
                            }
                        },
                        None => {},
                    }
                }
                i = i + 1;
            }
            let ghost old_dp = dp@;
            dp.push((best, prev));
            proof {
                assert forall|x: int| 0 <= x <= q implies (#[trigger] dp@[x]).0 as int == merge_at(
                    f,
                    s,
                    x,
                ).0 && dp@[x].1 as int == merge_at(f, s, x).1 by {
                    if x < q {
                        assert(dp@[x] == old_dp[x]);
                    }
                }
            }
            k = q;
        }
        let mut out: Vec<String> = Vec::new();
        let mut pos: usize = n;
        proof {
            assert(merged_to(f, s, n as int) + text::texts(out@) =~= merged_to(f, s, n as int));
        }
        while pos > 0
            invariant
                pos <= n,
                n == s.len(),
                s == text::texts(segs@),
                dp@.len() == n + 1,
                forall|x: int|
                    0 <= x <= n ==> (#[trigger] dp@[x]).0 as int == merge_at(f, s, x).0 && dp@[x].1 as int
                        == merge_at(f, s, x).1,
                merged_to(f, s, pos as int) + text::texts(out@) == merged_to(f, s, n as int),
            decreases pos,
        {
            let prev = dp[pos].1;
            let ghost was = text::texts(out@);
            proof {
                assert(dp@[pos as int].1 as int == merge_at(f, s, pos as int).1);
                lemma_merge_over(f, s, pos as int, pos as int);
            }
            let py = join_range(segs, prev, pos);
            out.insert(0, py);
            proof {
                assert(text::texts(out@) =~= seq![py@] + was);
                assert(merged_to(f, s, prev as int) + (seq![py@] + was) =~= merged_to(
                    f,
                    s,
                    prev as int,
                ).push(py@) + was);
            }
            pos = prev;
        }
        proof {
            assert(merged_to(f, s, 0) + text::texts(out@) =~= text::texts(out@));
        }
        out
    }

    /// Cuts the input in two passes: into basic syllables, then joining neighbours.
    pub fn two_pass_segment(input: &str, syllable_freq: &FreqTable, base_syllables: &WordSet) -> (r:
        Vec<String>)
        ensures
            text::texts(r@) == two_pass(known(syllable_freq, base_syllables), input@),
    {
        let singles = Self::segment_single(input, base_syllables);
        Self::merge_by_freq(singles.as_slice(), syllable_freq)
    }
}

/// Positions more than four back do not count.
proof fn lemma_merge_far(freq: Map<Seq<char>, u64>, segs: Seq<Seq<char>>, k: int, m: int)
    requires
        0 <= m,
        m == 0 || m <= k - 4,
        0 < k,
    ensures
        merge_over(freq, segs, k, m) == (0int, 0int),
    decreases m,
{
    if m > 0 {
        lemma_merge_far(freq, segs, k, m - 1);
    }
}


/// Whether positions, from the beginning on, are the ends of pieces.
pub open spec fn is_cut(t: Syllables, input: Seq<char>, cuts: Seq<int>) -> bool {
    &&& cuts.len() >= 1
    &&& cuts[0] == 0
    &&& forall|i: int|
        0 <= i < cuts.len() - 1 ==> {
            &&& #[trigger] cuts[i] < cuts[i + 1] <= cuts[i] + MAX_PIECE
            &&& text::on_boundary(input, cuts[i + 1])
            &&& piece(t, input, cuts[i], cuts[i + 1]) is Some
        }
}

/// The frequency of a piece.
pub open spec fn gain(p: Option<(u64, Option<Seq<char>>)>) -> int {
    match p {
        Some((f, _)) => f as int,
        None => 0,
    }
}

/// The corrected text of a piece, empty where nothing had to be corrected.
pub open spec fn correction(p: Option<(u64, Option<Seq<char>>)>) -> Seq<char> {
    match p {
        Some((_, Some(x))) => x,
        _ => Seq::empty(),
    }
}

/// The total frequency of a way.
pub open spec fn total_of(s: Slot) -> int {
    match s.best {
        Some((f, _, _)) => f,
        None => 0,
    }
}

/// The number of pieces of a way.
pub open spec fn count_of(s: Slot) -> int {
    match s.best {
        Some((_, n, _)) => n,
        None => 0,
    }
}

/// The total frequency of the pieces of a cut.
pub open spec fn worth(t: Syllables, input: Seq<char>, cuts: Seq<int>) -> int
    decreases cuts.len(),
{
    if cuts.len() <= 1 {
        0
    } else {
        worth(t, input, cuts.drop_last()) + gain(
            piece(t, input, cuts[cuts.len() - 2], cuts.last()),
        )
    }
}

/// Whether a way is at least as good as a total and a number of pieces.
pub open spec fn as_good(best: Option<(int, int, int)>, total: int, count: int) -> bool {
    best matches Some((f, n, _)) && (f > total || (f == total && n <= count))
}

proof fn lemma_slot_improves(t: Syllables, input: Seq<char>, k: int, m1: int, m2: int, total: int, count: int)
    requires
        0 <= m1 <= m2 <= k,
        as_good(slot_over(t, input, k, m1).best, total, count),
    ensures
        as_good(slot_over(t, input, k, m2).best, total, count),
    decreases m2,
{
    if m1 < m2 {
        lemma_slot_improves(t, input, k, m1, m2 - 1, total, count);
    }
}

/// No cut of the input into pieces has a higher total frequency than the way that is chosen,
/// and none with the same total has fewer pieces.
pub proof fn law_viterbi_is_best(t: Syllables, input: Seq<char>, cuts: Seq<int>)
    requires
        is_cut(t, input, cuts),
    ensures
        as_good(slot(t, input, cuts.last()).best, worth(t, input, cuts), cuts.len() - 1),
    decreases cuts.len(),
{
    if cuts.len() > 1 {
        let head = cuts.drop_last();
        let i = cuts[cuts.len() - 2];
        let k = cuts.last();
        assert forall|x: int| 0 <= x < head.len() - 1 implies {
            &&& #[trigger] head[x] < head[x + 1] <= head[x] + MAX_PIECE
            &&& text::on_boundary(input, head[x + 1])
            &&& piece(t, input, head[x], head[x + 1]) is Some
        } by {
            assert(head[x] == cuts[x] && head[x + 1] == cuts[x + 1]);
        }
        law_viterbi_is_best(t, input, head);
        assert(head.last() == i);
        assert(cuts[cuts.len() - 2] < cuts[cuts.len() - 2 + 1]);
        lemma_cuts_rise(t, input, head);
        assert(as_good(slot_over(t, input, k, i + 1).best, worth(t, input, cuts), cuts.len() - 1));
        lemma_slot_improves(t, input, k, i + 1, k, worth(t, input, cuts), cuts.len() - 1);
    }
}

proof fn lemma_cuts_rise(t: Syllables, input: Seq<char>, cuts: Seq<int>)
    requires
        is_cut(t, input, cuts),
    ensures
        cuts.last() >= 0,
    decreases cuts.len(),
{
    if cuts.len() > 1 {
        let head = cuts.drop_last();
        assert forall|x: int| 0 <= x < head.len() - 1 implies {
            &&& #[trigger] head[x] < head[x + 1] <= head[x] + MAX_PIECE
            &&& text::on_boundary(input, head[x + 1])
            &&& piece(t, input, head[x], head[x + 1]) is Some
        } by {
            assert(head[x] == cuts[x] && head[x + 1] == cuts[x + 1]);
        }
        lemma_cuts_rise(t, input, head);
        assert(cuts[cuts.len() - 2] < cuts[cuts.len() - 2 + 1]);
    }
}

proof fn lemma_slot_over_step(t: Syllables, input: Seq<char>, k: int, m: int)
    requires
        0 <= m <= k,
        0 < k,
    ensures
        slot_over(t, input, k, m).best matches Some((f, n, prev)) ==> slot(
            t,
            input,
            prev,
        ).best is Some && piece(t, input, prev, k) is Some && f == total_of(
            slot(t, input, prev),
        ) + gain(piece(t, input, prev, k)) && n == count_of(slot(t, input, prev)) + 1 && slot_over(
            t,
            input,
            k,
            m,
        ).fix == correction(piece(t, input, prev, k)),
    decreases m,
{
    if m > 0 {
        lemma_slot_over_step(t, input, k, m - 1);
    }
}

/// The way to a position goes over the way to the position before: its last piece is one, and
/// the totals add up.
pub proof fn law_way_adds_up(t: Syllables, input: Seq<char>, k: int)
    requires
        0 < k,
    ensures
        slot(t, input, k).best matches Some((f, n, prev)) ==> {
            &&& 0 <= prev < k
            &&& slot(t, input, prev).best is Some
            &&& piece(t, input, prev, k) is Some
            &&& f == total_of(slot(t, input, prev)) + gain(piece(t, input, prev, k))
            &&& n == count_of(slot(t, input, prev)) + 1
        },
{
    lemma_slot(t, input, k);
    lemma_slot_over_step(t, input, k, k);
}

/// The positions on the best way to a position.
pub open spec fn way_cuts(t: Syllables, input: Seq<char>, k: int) -> Seq<int>
    decreases k,
    when 0 <= k
    via way_cuts_ends
{
    if k <= 0 {
        seq![0]
    } else {
        match slot(t, input, k).best {
            Some((_, _, prev)) => way_cuts(t, input, prev).push(k),
            None => way_cuts(t, input, boundary_before(input, k)).push(k),
        }
    }
}

#[via_fn]
proof fn way_cuts_ends(t: Syllables, input: Seq<char>, k: int) {
    if k > 0 {
        lemma_slot(t, input, k);
        lemma_boundary_before(input, k);
    }
}

/// A piece as it is put out: corrected where that was needed.
pub open spec fn piece_text(t: Syllables, input: Seq<char>, i: int, j: int) -> Seq<char> {
    let x = correction(piece(t, input, i, j));
    if x.len() > 0 {
        x
    } else {
        text::between(input, i, j)
    }
}

/// The pieces of a cut.
pub open spec fn cut_pieces(t: Syllables, input: Seq<char>, cuts: Seq<int>) -> Seq<Seq<char>>
    decreases cuts.len(),
{
    if cuts.len() <= 1 {
        Seq::empty()
    } else {
        cut_pieces(t, input, cuts.drop_last()).push(
            piece_text(t, input, cuts[cuts.len() - 2], cuts.last()),
        )
    }
}

proof fn lemma_way_cuts(t: Syllables, input: Seq<char>, k: int)
    requires
        0 <= k,
        slot(t, input, k).best is Some,
    ensures
        is_cut(t, input, way_cuts(t, input, k)),
        way_cuts(t, input, k).last() == k,
        cut_pieces(t, input, way_cuts(t, input, k)) == way(t, input, k),
        worth(t, input, way_cuts(t, input, k)) == total_of(slot(t, input, k)),
        way_cuts(t, input, k).len() - 1 == count_of(slot(t, input, k)),
    decreases k,
{
    if k > 0 {
        law_way_adds_up(t, input, k);
        lemma_slot(t, input, k);
        lemma_slot_over_step(t, input, k, k);
        let prev = match slot(t, input, k).best {
            Some((_, _, p)) => p,
            None => 0,
        };
        lemma_way_cuts(t, input, prev);
        let head = way_cuts(t, input, prev);
        let all = way_cuts(t, input, k);
        assert(all == head.push(k));
        assert(all.drop_last() =~= head);
        assert(all[all.len() - 2] == head.last());
        assert forall|x: int| 0 <= x < all.len() - 1 implies {
            &&& #[trigger] all[x] < all[x + 1] <= all[x] + MAX_PIECE
            &&& text::on_boundary(input, all[x + 1])
            &&& piece(t, input, all[x], all[x + 1]) is Some
        } by {
            if x < head.len() - 1 {
                assert(head[x] == all[x] && head[x + 1] == all[x + 1]);
            }
        }
    }
}

/// The pieces of an input are those of a cut, and no other cut of the whole input has a higher
/// total frequency, or the same with fewer pieces.
pub proof fn law_pieces_are_the_best(t: Syllables, input: Seq<char>, cuts: Seq<int>)
    requires
        is_cut(t, input, cuts),
        cuts.last() == text::byte_len(input),
    ensures
        ({
            let own = way_cuts(t, input, text::byte_len(input) as int);
            &&& is_cut(t, input, own)
            &&& own.last() == text::byte_len(input)
            &&& viterbi(t, input) == cut_pieces(t, input, own)
            &&& worth(t, input, own) > worth(t, input, cuts) || (worth(t, input, own) == worth(
                t,
                input,
                cuts,
            ) && own.len() <= cuts.len())
        }),
{
    law_viterbi_is_best(t, input, cuts);
    lemma_way_cuts(t, input, text::byte_len(input) as int);
}

/// Neighbouring parts of a text, put together, are the part from the first to the last
/// position.
proof fn lemma_between_joins(s: Seq<char>, i: int, j: int, k: int)
    requires
        0 <= i <= j <= k <= text::byte_len(s),
        text::on_boundary(s, i),
        text::on_boundary(s, j),
        text::on_boundary(s, k),
    ensures
        text::between(s, i, j) + text::between(s, j, k) == text::between(s, i, k),
{
    let b = encode_utf8(s);
    encode_utf8_valid_utf8(s);
    text::lemma_part_is_text(b, i, j);
    text::lemma_part_is_text(b, j, k);
    text::lemma_part_is_text(b, i, k);
    let x = text::between(s, i, j);
    let y = text::between(s, j, k);
    let z = text::between(s, i, k);
    decode_utf8_encode_utf8(b.subrange(i, j));
    decode_utf8_encode_utf8(b.subrange(j, k));
    decode_utf8_encode_utf8(b.subrange(i, k));
    text::lemma_encoding_of_concat(x, y);
    assert(b.subrange(i, j) + b.subrange(j, k) =~= b.subrange(i, k));
    text::lemma_encoding_is_injective(x + y, z);
}

proof fn lemma_way_covers(t: Syllables, input: Seq<char>, k: int)
    requires
        0 <= k <= text::byte_len(input),
        text::on_boundary(input, k),
        forall|j: int| 0 < j <= k ==> (#[trigger] slot(t, input, j)).fix.len() == 0,
    ensures
        joined(way(t, input, k)) == text::between(input, 0, k),
    decreases k,
{
    encode_utf8_valid_utf8(input);
    if k == 0 {
        assert(encode_utf8(input).subrange(0, 0) =~= Seq::<u8>::empty());
        assert(joined(way(t, input, 0)) =~= Seq::<char>::empty());
        assert(text::between(input, 0, 0) =~= Seq::<char>::empty());
    } else {
        lemma_slot(t, input, k);
        lemma_boundary_before(input, k);
        let s = slot(t, input, k);
        let prev = match s.best {
            Some((_, _, p)) => p,
            None => boundary_before(input, k),
        };
        lemma_way_covers(t, input, prev);
        lemma_between_joins(input, 0, prev, k);
        let w = way(t, input, prev);
        let last = text::between(input, prev, k);
        assert(way(t, input, k) == w.push(last));
        assert(w.push(last).drop_last() =~= w);
    }
}

/// Where nothing had to be corrected, the pieces put together are the input.
pub proof fn law_pieces_cover_the_input(t: Syllables, input: Seq<char>)
    requires
        forall|j: int|
            0 < j <= text::byte_len(input) ==> (#[trigger] slot(t, input, j)).fix.len() == 0,
    ensures
        joined(viterbi(t, input)) == input,
{
    lemma_end_is_boundary(input);
    lemma_way_covers(t, input, text::byte_len(input) as int);
    let b = encode_utf8(input);
    assert(b.subrange(0, b.len() as int) =~= b);
    encode_utf8_decode_utf8(input);
}

/// Joined texts stand in their order: those of two lists joined are those of the first, then those
/// of the second.
pub proof fn law_joining_is_in_order(a: Seq<Seq<char>>, b: Seq<Seq<char>>, x: Seq<char>)
    ensures
        joined(a + b) == joined(a) + joined(b),
        joined(seq![x]) == x,
{
    lemma_joined_concat(a, b);
    assert(seq![x].drop_last() =~= Seq::<Seq<char>>::empty());
    assert(joined(seq![x].drop_last()) + x =~= x);
}

proof fn lemma_joined_concat(a: Seq<Seq<char>>, b: Seq<Seq<char>>)
    ensures
        joined(a + b) == joined(a) + joined(b),
    decreases b.len(),
{
    if b.len() == 0 {
        assert(a + b =~= a);
        assert(joined(a) + joined(b) =~= joined(a));
    } else {
        lemma_joined_concat(a, b.drop_last());
        assert((a + b).drop_last() =~= a + b.drop_last());
        assert(joined(a) + joined(b.drop_last()) + b.last() =~= joined(a) + joined(b));
    }
}

proof fn lemma_merged_letters(freq: Map<Seq<char>, u64>, segs: Seq<Seq<char>>, k: int)
    requires
        0 <= k <= segs.len(),
    ensures
        joined(merged_to(freq, segs, k)) == joined(segs.take(k)),
    decreases k,
{
    if k == 0 {
        assert(segs.take(0) =~= Seq::<Seq<char>>::empty());
    } else {
        lemma_merge_over(freq, segs, k, k);
        let prev = merge_at(freq, segs, k).1;
        lemma_merged_letters(freq, segs, prev);
        lemma_joined_concat(segs.take(prev), segs.subrange(prev, k));
        assert(segs.take(prev) + segs.subrange(prev, k) =~= segs.take(k));
        let m = merged_to(freq, segs, k);
        assert(m.drop_last() =~= merged_to(freq, segs, prev));
    }
}

/// Joining syllables neither loses nor adds a letter.
pub proof fn law_joining_keeps_letters(freq: Map<Seq<char>, u64>, segs: Seq<Seq<char>>)
    ensures
        joined(merged_to(freq, segs, segs.len() as int)) == joined(segs),
{
    lemma_merged_letters(freq, segs, segs.len() as int);
    assert(segs.take(segs.len() as int) =~= segs);
}

/// Whether positions, from the first syllable on, are the ends of pieces: single syllables, or two
/// to four that are known together.
pub open spec fn is_joining(freq: Map<Seq<char>, u64>, segs: Seq<Seq<char>>, cuts: Seq<int>) -> bool {
    &&& cuts.len() >= 1
    &&& cuts[0] == 0
    &&& forall|i: int|
        0 <= i < cuts.len() - 1 ==> {
            &&& 0 <= #[trigger] cuts[i] < cuts[i + 1] <= cuts[i] + 4
            &&& cuts[i + 1] <= segs.len()
            &&& cuts[i + 1] - cuts[i] == 1 || freq.contains_key(
                joined(segs.subrange(cuts[i], cuts[i + 1])),
            )
        }
}

/// What joined syllables are worth.
pub open spec fn joining_worth(freq: Map<Seq<char>, u64>, segs: Seq<Seq<char>>, i: int, k: int) -> int {
    if k - i == 1 {
        0
    } else {
        freq[joined(segs.subrange(i, k))] as int
    }
}

/// The total frequency of a way to join syllables.
pub open spec fn total_worth(freq: Map<Seq<char>, u64>, segs: Seq<Seq<char>>, cuts: Seq<int>) -> int
    decreases cuts.len(),
{
    if cuts.len() <= 1 {
        0
    } else {
        total_worth(freq, segs, cuts.drop_last()) + joining_worth(
            freq,
            segs,
            cuts[cuts.len() - 2],
            cuts.last(),
        )
    }
}

proof fn lemma_merge_at_least(freq: Map<Seq<char>, u64>, segs: Seq<Seq<char>>, i: int, k: int, m: int)
    requires
        0 <= i < m <= k <= i + 4,
        k - i == 1 || freq.contains_key(joined(segs.subrange(i, k))),
    ensures
        merge_over(freq, segs, k, m).0 >= merge_at(freq, segs, i).0 + joining_worth(freq, segs, i, k),
    decreases m,
{
    if i < m - 1 {
        lemma_merge_at_least(freq, segs, i, k, m - 1);
    }
}

/// Of all ways to join syllables up to a position, none has a higher total frequency than the best
/// score there.
pub proof fn law_joining_is_best(freq: Map<Seq<char>, u64>, segs: Seq<Seq<char>>, cuts: Seq<int>)
    requires
        is_joining(freq, segs, cuts),
    ensures
        total_worth(freq, segs, cuts) <= merge_at(freq, segs, cuts.last()).0,
    decreases cuts.len(),
{
    if cuts.len() > 1 {
        let d = cuts.drop_last();
        assert forall|i: int| 0 <= i < d.len() - 1 implies {
            &&& 0 <= #[trigger] d[i] < d[i + 1] <= d[i] + 4
            &&& d[i + 1] <= segs.len()
            &&& d[i + 1] - d[i] == 1 || freq.contains_key(joined(segs.subrange(d[i], d[i + 1])))
        } by {
            assert(d[i] == cuts[i] && d[i + 1] == cuts[i + 1]);
        }
        law_joining_is_best(freq, segs, d);
        let i = cuts[cuts.len() - 2];
        let k = cuts.last();
        assert(cuts[cuts.len() - 2] < cuts[cuts.len() - 2 + 1]);
        assert(d.last() == i);
        lemma_merge_at_least(freq, segs, i, k, k);
    }
}

proof fn lemma_merged_worth(freq: Map<Seq<char>, u64>, segs: Seq<Seq<char>>, k: int, m: int)
    requires
        0 < k,
        0 < m <= k,
    ensures
        ({
            let (w, i) = merge_over(freq, segs, k, m);
            ||| w == 0
            ||| 0 <= i < m && k <= i + 4 && (k - i == 1 || freq.contains_key(
                joined(segs.subrange(i, k)),
            )) && w == merge_at(freq, segs, i).0 + joining_worth(freq, segs, i, k)
        }),
    decreases m,
{
    if m > 1 {
        lemma_merged_worth(freq, segs, k, m - 1);
    } else {
        assert(merge_over(freq, segs, k, 0) == (0int, 0int));
    }
}

/// The ends of the pieces that are taken.
pub open spec fn taken_cuts(freq: Map<Seq<char>, u64>, segs: Seq<Seq<char>>, k: int) -> Seq<int>
    decreases k,
    when 0 <= k
    via taken_ends
{
    if k <= 0 {
        seq![0int]
    } else {
        taken_cuts(freq, segs, merge_at(freq, segs, k).1).push(k)
    }
}

#[via_fn]
proof fn taken_ends(freq: Map<Seq<char>, u64>, segs: Seq<Seq<char>>, k: int) {
    if k > 0 {
        lemma_merge_over(freq, segs, k, k);
    }
}

/// The way that is taken is a way to join syllables, and its total frequency is the best score.
pub proof fn law_best_joining_is_taken(freq: Map<Seq<char>, u64>, segs: Seq<Seq<char>>, k: int)
    requires
        0 <= k <= segs.len(),
    ensures
        is_joining(freq, segs, taken_cuts(freq, segs, k)),
        taken_cuts(freq, segs, k).last() == k,
        total_worth(freq, segs, taken_cuts(freq, segs, k)) == merge_at(freq, segs, k).0,
        merged_to(freq, segs, k).len() == taken_cuts(freq, segs, k).len() - 1,
    decreases k,
{
    if k > 0 {
        lemma_merge_over(freq, segs, k, k);
        lemma_merged_worth(freq, segs, k, k);
        let (w, i) = merge_at(freq, segs, k);
        if k > 1 {
            lemma_merge_over(freq, segs, k - 1, k - 1);
            assert(merge_at(freq, segs, k - 1) == merge_over(freq, segs, k - 1, k - 1));
        } else {
            assert(merge_over(freq, segs, 1, 0) == (0int, 0int));
        }
        law_best_joining_is_taken(freq, segs, i);
        let d = taken_cuts(freq, segs, i);
        let c = taken_cuts(freq, segs, k);
        assert(c == d.push(k));
        assert(c.drop_last() =~= d);
        assert forall|x: int| 0 <= x < c.len() - 1 implies {
            &&& 0 <= #[trigger] c[x] < c[x + 1] <= c[x] + 4
            &&& c[x + 1] <= segs.len()
            &&& c[x + 1] - c[x] == 1 || freq.contains_key(joined(segs.subrange(c[x], c[x + 1])))
        } by {
            if x < d.len() - 1 {
                assert(c[x] == d[x] && c[x + 1] == d[x + 1]);
            } else {
                assert(c[x] == i && c[x + 1] == k);
            }
        }
    }
}

proof fn lemma_chunks_add_up(t: Syllables, a: Seq<Seq<char>>, b: Seq<Seq<char>>, n: int)
    requires
        0 <= n <= b.len(),
    ensures
        chunk_pieces(t, a + b, a.len() + n) == chunk_pieces(t, a, a.len() as int) + chunk_pieces(
            t,
            b,
            n,
        ),
    decreases n,
{
    if n > 0 {
        lemma_chunks_add_up(t, a, b, n - 1);
        assert((a + b)[a.len() + n - 1] == b[n - 1]);
        assert(chunk_pieces(t, a, a.len() as int) + (chunk_pieces(t, b, n - 1) + viterbi(t, b[n - 1]))
            =~= (chunk_pieces(t, a, a.len() as int) + chunk_pieces(t, b, n - 1)) + viterbi(t, b[n - 1]));
    } else {
        lemma_chunks_prefix(t, a, b, a.len() as int);
        assert(chunk_pieces(t, a, a.len() as int) + chunk_pieces(t, b, 0) =~= chunk_pieces(
            t,
            a,
            a.len() as int,
        ));
    }
}

proof fn lemma_chunks_prefix(t: Syllables, a: Seq<Seq<char>>, b: Seq<Seq<char>>, n: int)
    requires
        0 <= n <= a.len(),
    ensures
        chunk_pieces(t, a + b, n) == chunk_pieces(t, a, n),
    decreases n,
{
    if n > 0 {
        lemma_chunks_prefix(t, a, b, n - 1);
        assert((a + b)[n - 1] == a[n - 1]);
    }
}

proof fn lemma_delimiter_parts(
    t: Syllables,
    a: Seq<char>,
    c: char,
    b: Seq<char>,
    delimiters: Seq<char>,
)
    requires
        delimiters.contains(c),
        text::lowercase(a + seq![c] + b) == text::lowercase(a) + seq![c] + text::lowercase(b),
    ensures
        segmented(t, a + seq![c] + b, delimiters) == segmented(t, a, delimiters) + segmented(
            t,
            b,
            delimiters,
        ),
{
    let x = text::fields(text::lowercase(a), delimiters);
    let y = text::fields(text::lowercase(b), delimiters);
    text::lemma_fields_part(text::lowercase(a), c, text::lowercase(b), delimiters);
    lemma_chunks_add_up(t, x, y, y.len() as int);
}

/// Cutting at a delimiter that has no lower-case form but itself, the pieces of an input are those
/// of what stands before the delimiter and then those of what stands behind it. The input may hold
/// ASCII, and other characters without a lower-case form.
pub proof fn law_delimiter_parts_the_pieces(
    t: Syllables,
    a: Seq<char>,
    c: char,
    b: Seq<char>,
    delimiters: Seq<char>,
)
    requires
        text::small_beyond_ascii(a),
        text::small_beyond_ascii(b),
        text::small(c) == seq![c],
        delimiters.contains(c),
    ensures
        segmented(t, a + seq![c] + b, delimiters) == segmented(t, a, delimiters) + segmented(
            t,
            b,
            delimiters,
        ),
{
    let s = a + seq![c] + b;
    assert(seq![c][0] == c);
    assert(seq![text::lower_char(c)][0] == text::lower_char(c));
    assert(text::small_beyond_ascii(s)) by {
        assert forall|i: int| 0 <= i < s.len() implies '\0' <= #[trigger] s[i] <= '\u{7f}'
            || text::unicode_lower(s[i]) == seq![s[i]] by {
            if i < a.len() {
                assert(s[i] == a[i]);
            } else if i > a.len() {
                assert(s[i] == b[i - a.len() - 1]);
            } else {
                assert(s[i] == seq![c][0]);
            }
        }
    }
    assert(text::lowercase(s) =~= text::lowercase(a) + seq![c] + text::lowercase(b));
    lemma_delimiter_parts(t, a, c, b, delimiters);
}

/// Whether ASCII letters are capitals or not makes no difference to the pieces.
pub proof fn law_case_does_not_matter(t: Syllables, a: Seq<char>, delimiters: Seq<char>)
    requires
        text::small_beyond_ascii(a),
    ensures
        segmented(t, text::lowercase(a), delimiters) == segmented(t, a, delimiters),
{
    text::lemma_lowercase_twice(a);
}

} // verus!
