//! Letters typed behind complete syllables, taken for an auxiliary code.

use vstd::prelude::*;
use crate::config::SmartAuxMode;
use crate::tables::WordSet;
use crate::text;
use crate::text::{chars_of, lower_letter, string_of};

verus! {

/// Whether letters can be cut into syllables with nothing left over.
pub open spec fn fully_syllabic(s: Seq<char>, syllables: Set<Seq<char>>) -> bool
    decreases s.len(),
{
    s.len() == 0 || exists|n: int|
        1 <= n <= s.len() && syllables.contains(#[trigger] s.take(n)) && fully_syllabic(
            s.skip(n),
            syllables,
        )
}

/// The largest number of letters, at most `k`, that can be cut into syllables.
pub open spec fn longest_syllabic(s: Seq<char>, syllables: Set<Seq<char>>, k: int) -> Option<int>
    decreases k,
{
    if k <= 0 {
        None
    } else if fully_syllabic(s.take(k), syllables) {
        Some(k)
    } else {
        longest_syllabic(s, syllables, k - 1)
    }
}

/// The smallest number of letters, from `k` on and short of all, that can be cut into
/// syllables.
pub open spec fn shortest_syllabic(s: Seq<char>, syllables: Set<Seq<char>>, k: int) -> Option<int>
    decreases s.len() - k,
{
    if k >= s.len() {
        None
    } else if fully_syllabic(s.take(k), syllables) {
        Some(k)
    } else {
        shortest_syllabic(s, syllables, k + 1)
    }
}

/// How many letters of the buffer are pinyin, the rest being an auxiliary code. There is no
/// such cut of fewer than three letters, of anything but lower-case letters, or of letters
/// that are complete syllables themselves.
pub open spec fn aux_cut(buffer: Seq<char>, syllables: Set<Seq<char>>, mode: SmartAuxMode) -> Option<
    int,
> {
    if buffer.len() < 3 || !(forall|i: int|
        0 <= i < buffer.len() ==> text::is_lower_letter(#[trigger] buffer[i])) || syllables.contains(
        buffer,
    ) || fully_syllabic(buffer, syllables) {
        None
    } else {
        match mode {
            SmartAuxMode::Greedy => longest_syllabic(buffer, syllables, buffer.len() - 1),
            SmartAuxMode::Minimal => shortest_syllabic(buffer, syllables, 1),
        }
    }
}

/// Whether letters can be cut into syllables: this is noted of what stands behind each place,
/// from the end on.
fn cuts_through(s: &[char], syllables: &WordSet) -> (r: bool)
    ensures
        r == fully_syllabic(s@, syllables@),
{
    let n = s.len();
    // The place `n - i` is noted at `i`.
    let mut noted: Vec<bool> = Vec::new();
    noted.push(true);
    proof {
        assert(s@.skip(n as int).len() == 0);
    }
    while noted.len() <= n
        invariant
            n == s@.len(),
            1 <= noted.len() <= n + 1,
            forall|i: int|
                0 <= i < noted@.len() ==> #[trigger] noted@[i] == fully_syllabic(
                    s@.skip(n - i),
                    syllables@,
                ),
        decreases n + 1 - noted.len(),
    {
        let at = n - noted.len();
        let ghost t = s@.skip(at as int);
        let mut k: usize = 0;
        let mut found = false;
        while k < n - at && !found
            invariant
                n == s@.len(),
                1 <= noted.len() <= n,
                at == n - noted.len(),
                k <= n - at,
                t == s@.skip(at as int),
                forall|i: int|
                    0 <= i < noted@.len() ==> #[trigger] noted@[i] == fully_syllabic(
                        s@.skip(n - i),
                        syllables@,
                    ),
                found ==> fully_syllabic(t, syllables@),
                !found ==> forall|m: int|
                    1 <= m <= k ==> !(syllables@.contains(#[trigger] t.take(m)) && fully_syllabic(
                        t.skip(m),
                        syllables@,
                    )),
            decreases n - at - k,
        {
            k = k + 1;
            let head = string_of(vstd::slice::slice_subrange(s, at, at + k));
            proof {
                assert(head@ =~= t.take(k as int));
                assert(t.skip(k as int) =~= s@.skip(n - (n - at - k)));
                assert(noted@[n - at - k] == fully_syllabic(t.skip(k as int), syllables@));
            }
            if noted[n - at - k] && syllables.contains(head.as_str()) {
                found = true;
            }
        }
        proof {
            assert(t.len() == n - at > 0);
        }
        noted.push(found);
    }
    proof {
        assert(s@.skip(0) =~= s@);
        assert(noted@[n as int] == fully_syllabic(s@.skip(n - n), syllables@));
    }
    noted[n]
}

/// Whether letters are made of syllables, with no letter left over.
pub fn is_fully_syllabic(s: &str, syllables: &WordSet) -> (r: bool)
    ensures
        r == fully_syllabic(s@, syllables@),
{
    cuts_through(chars_of(s).as_slice(), syllables)
}

/// Cuts the buffer into pinyin and an auxiliary code.
pub fn detect_smart_aux(buffer: &str, syllables: &WordSet, mode: SmartAuxMode) -> (r: Option<
    (String, String),
>)
    ensures
        match aux_cut(buffer@, syllables@, mode) {
            None => r is None,
            Some(n) => r matches Some((base, aux)) && base@ == buffer@.take(n) && aux@ == buffer@.skip(
                n,
            ),
        },
{
    let v = chars_of(buffer);
    if v.len() < 3 {
        return None;
    }
    let mut i: usize = 0;
    while i < v.len()
        invariant
            i <= v.len(),
            v@ == buffer@,
            forall|j: int| 0 <= j < i ==> text::is_lower_letter(#[trigger] v@[j]),
        decreases v.len() - i,
    {
        if !lower_letter(v[i]) {
            return None;
        }
        i = i + 1;
    }
    if syllables.contains(buffer) || cuts_through(v.as_slice(), syllables) {
        return None;
    }
    let cut: usize;
    match mode {
        SmartAuxMode::Greedy => {
            let mut k: usize = v.len() - 1;
            while k > 0 && !cuts_through(vstd::slice::slice_subrange(v.as_slice(), 0, k), syllables)
                invariant
                    k < v.len(),
                    v@ == buffer@,
                    longest_syllabic(v@, syllables@, v@.len() - 1) == longest_syllabic(
                        v@,
                        syllables@,
                        k as int,
                    ),
                decreases k,
            {
                proof {
                    assert(v@.subrange(0, k as int) =~= v@.take(k as int));
                }
                k = k - 1;
            }
            proof {
                assert(v@.subrange(0, k as int) =~= v@.take(k as int));
            }
            if k == 0 {
                return None;
            }
            cut = k;
        },
        SmartAuxMode::Minimal => {
            let mut k: usize = 1;
            while k < v.len() && !cuts_through(
                vstd::slice::slice_subrange(v.as_slice(), 0, k),
                syllables,
            )
                invariant
                    1 <= k <= v.len(),
                    v@ == buffer@,
                    shortest_syllabic(v@, syllables@, 1) == shortest_syllabic(v@, syllables@, k as int),
                decreases v.len() - k,
            {
                proof {
                    assert(v@.subrange(0, k as int) =~= v@.take(k as int));
                }
                k = k + 1;
            }
            if k >= v.len() {
                return None;
            }
            proof {
                assert(v@.subrange(0, k as int) =~= v@.take(k as int));
            }
            cut = k;
        },
    }
    let base = string_of(vstd::slice::slice_subrange(v.as_slice(), 0, cut));
    let aux = string_of(vstd::slice::slice_subrange(v.as_slice(), cut, v.len()));
    proof {
        assert(base@ =~= buffer@.take(cut as int));
        assert(aux@ =~= buffer@.skip(cut as int));
    }
    Some((base, aux))
}

/// A cut leaves pinyin that can be cut into syllables and a code of at least one letter, and
/// puts the buffer together again.
pub proof fn law_aux_cut_is_proper(buffer: Seq<char>, syllables: Set<Seq<char>>, mode: SmartAuxMode)
    ensures
        aux_cut(buffer, syllables, mode) matches Some(n) ==> 0 < n < buffer.len() && fully_syllabic(
            buffer.take(n),
            syllables,
        ) && buffer.take(n) + buffer.skip(n) == buffer,
{
    if aux_cut(buffer, syllables, mode) is Some {
        match mode {
            SmartAuxMode::Greedy => {
                lemma_longest(buffer, syllables, buffer.len() - 1);
            },
            SmartAuxMode::Minimal => {
                lemma_shortest(buffer, syllables, 1);
            },
        }
        let n = aux_cut(buffer, syllables, mode)->0;
        assert(buffer.take(n) + buffer.skip(n) =~= buffer);
    }
}

/// The greedy cut takes the longest pinyin there is, the minimal cut the shortest.
pub proof fn law_aux_cut_modes(buffer: Seq<char>, syllables: Set<Seq<char>>, k: int)
    requires
        0 < k < buffer.len(),
        fully_syllabic(buffer.take(k), syllables),
    ensures
        aux_cut(buffer, syllables, SmartAuxMode::Greedy) matches Some(n) ==> k <= n,
        aux_cut(buffer, syllables, SmartAuxMode::Minimal) matches Some(n) ==> n <= k,
{
    lemma_longest_is_longest(buffer, syllables, buffer.len() - 1, k);
    lemma_shortest_is_shortest(buffer, syllables, 1, k);
}

proof fn lemma_longest(s: Seq<char>, syllables: Set<Seq<char>>, k: int)
    ensures
        longest_syllabic(s, syllables, k) matches Some(n) ==> 0 < n <= k && fully_syllabic(
            s.take(n),
            syllables,
        ),
    decreases k,
{
    if k > 0 && !fully_syllabic(s.take(k), syllables) {
        lemma_longest(s, syllables, k - 1);
    }
}

proof fn lemma_longest_is_longest(s: Seq<char>, syllables: Set<Seq<char>>, k: int, m: int)
    requires
        0 < m <= k,
        fully_syllabic(s.take(m), syllables),
    ensures
        longest_syllabic(s, syllables, k) matches Some(n) && m <= n,
    decreases k,
{
    if !fully_syllabic(s.take(k), syllables) {
        lemma_longest_is_longest(s, syllables, k - 1, m);
    }
}

proof fn lemma_shortest(s: Seq<char>, syllables: Set<Seq<char>>, k: int)
    requires
        0 < k,
    ensures
        shortest_syllabic(s, syllables, k) matches Some(n) ==> 0 < n < s.len() && fully_syllabic(
            s.take(n),
            syllables,
        ),
    decreases s.len() - k,
{
    if k < s.len() && !fully_syllabic(s.take(k), syllables) {
        lemma_shortest(s, syllables, k + 1);
    }
}

proof fn lemma_shortest_is_shortest(s: Seq<char>, syllables: Set<Seq<char>>, k: int, m: int)
    requires
        k <= m < s.len(),
        fully_syllabic(s.take(m), syllables),
    ensures
        shortest_syllabic(s, syllables, k) matches Some(n) && n <= m,
    decreases s.len() - k,
{
    if !fully_syllabic(s.take(k), syllables) {
        lemma_shortest_is_shortest(s, syllables, k + 1, m);
    }
}

/// Whether pieces are syllables that make up letters.
pub open spec fn made_of(s: Seq<char>, pieces: Seq<Seq<char>>, syllables: Set<Seq<char>>) -> bool
    decreases pieces.len(),
{
    if pieces.len() == 0 {
        s.len() == 0
    } else {
        pieces[0].len() > 0 && syllables.contains(pieces[0]) && text::begins(s, pieces[0]) && made_of(
            s.skip(pieces[0].len() as int),
            pieces.drop_first(),
            syllables,
        )
    }
}

/// Letters are fully syllabic if and only if some row of syllables makes them up, however long
/// the row is.
pub proof fn law_syllabic_means_made_of_syllables(s: Seq<char>, syllables: Set<Seq<char>>)
    ensures
        fully_syllabic(s, syllables) <==> exists|pieces: Seq<Seq<char>>| made_of(s, pieces, syllables),
    decreases s.len(),
{
    if s.len() == 0 {
        assert(made_of(s, Seq::<Seq<char>>::empty(), syllables));
        assert(fully_syllabic(s, syllables));
    } else {
        if fully_syllabic(s, syllables) {
            let n = choose|n: int|
                1 <= n <= s.len() && syllables.contains(#[trigger] s.take(n)) && fully_syllabic(
                    s.skip(n),
                    syllables,
                );
            law_syllabic_means_made_of_syllables(s.skip(n), syllables);
            let rest = choose|rest: Seq<Seq<char>>| made_of(s.skip(n), rest, syllables);
            let all = seq![s.take(n)] + rest;
            assert(all.drop_first() =~= rest);
            assert(made_of(s, all, syllables));
        }
        if exists|pieces: Seq<Seq<char>>| made_of(s, pieces, syllables) {
            let pieces = choose|pieces: Seq<Seq<char>>| made_of(s, pieces, syllables);
            let n = pieces[0].len() as int;
            assert(s.take(n) =~= pieces[0]);
            law_syllabic_means_made_of_syllables(s.skip(n), syllables);
            assert(made_of(s.skip(n), pieces.drop_first(), syllables));
            assert(fully_syllabic(s.skip(n), syllables));
            assert(syllables.contains(s.take(n)));
        }
    }
}

} // verus!
