//! Word encodings for the guessing-game circuits: letters as small field
//! values, words as polynomial hashes, and the green/yellow difference
//! vectors between a guess and the answer.

use vstd::prelude::*;
use vstd::string::StrSliceExecFns;

verus! {

/// The base of the polynomial hash over letters.
pub const BASE: u64 = 29;

/// The number of guesses a game allows.
pub const WORD_COUNT: usize = 6;

/// The number of letters in a word.
pub const WORD_LEN: usize = 5;

/// The encoded value of a letter: `'a'` maps to one.
pub open spec fn char_value(c: char) -> int {
    c as int - 'a' as int + 1
}

/// The polynomial hash of a word: each letter shifts the accumulator by the
/// base and adds its value.
pub open spec fn polyhash(s: Seq<char>) -> int
    decreases s.len(),
{
    if s.len() == 0 {
        0
    } else {
        polyhash(s.drop_last()) * BASE + char_value(s.last())
    }
}

/// `BASE` raised to `n`.
pub open spec fn base_pow(n: nat) -> int
    decreases n,
{
    if n == 0 {
        1
    } else {
        base_pow((n - 1) as nat) * BASE
    }
}

/// Lowercase words: every letter is between `'a'` and `'z'`.
pub open spec fn lowercase(s: Seq<char>) -> bool {
    forall|i: int| 0 <= i < s.len() ==> 'a' <= #[trigger] s[i] <= 'z'
}

/// The letter of `s` at `i`, if any.
pub open spec fn nth_char(s: Seq<char>, i: int) -> Option<char> {
    if 0 <= i < s.len() {
        Some(s[i])
    } else {
        None
    }
}

/// The hash of a lowercase word stays below `BASE` to the word's length.
proof fn lemma_polyhash_bound(s: Seq<char>)
    requires
        lowercase(s),
    ensures
        0 <= polyhash(s) < base_pow(s.len()),
    decreases s.len(),
{
    if s.len() > 0 {
        assert(lowercase(s.drop_last()));
        lemma_polyhash_bound(s.drop_last());
        assert(char_value(s.last()) <= 26);
    }
}

/// Powers of the base are positive.
proof fn lemma_base_pow_pos(n: nat)
    ensures
        base_pow(n) > 0,
    decreases n,
{
    if n > 0 {
        lemma_base_pow_pos((n - 1) as nat);
    }
}

/// Powers of the base grow monotonically.
proof fn lemma_base_pow_mono(a: nat, b: nat)
    requires
        a <= b,
    ensures
        0 < base_pow(a) <= base_pow(b),
    decreases b,
{
    lemma_base_pow_pos(a);
    if a < b {
        lemma_base_pow_mono(a, (b - 1) as nat);
    }
}

/// Encodes a word as the values of its letters.
pub fn word_to_chars(word: &str) -> (r: Vec<u64>)
    requires
        lowercase(word@),
    ensures
        r@.len() == word@.len(),
        forall|i: int| 0 <= i < r@.len() ==> (#[trigger] r@[i]) as int == char_value(word@[i]),
{
    let mut res: Vec<u64> = Vec::new();
    let len = word.unicode_len();
    let mut i: usize = 0;
    while i < len
        invariant
            lowercase(word@),
            len == word@.len(),
            i <= len,
            res@.len() == i,
            forall|k: int| 0 <= k < i ==> (#[trigger] res@[k]) as int == char_value(word@[k]),
        decreases len - i,
    {
        let c = word.get_char(i);
        proof {
            assert('a' <= word@[i as int] <= 'z');
        }
        res.push((c as u64) - ('a' as u64) + 1);
        i = i + 1;
    }
    res
}

/// The polynomial hash of a word, accumulated letter by letter.
pub fn word_to_polyhash(word: &str) -> (r: u64)
    requires
        lowercase(word@),
        word@.len() <= 13,
    ensures
        r as int == polyhash(word@),
{
    let chars = word_to_chars(word);
    let mut hash: u64 = 0;
    let n = chars.len();
    let mut i: usize = 0;
    while i < n
        invariant
            lowercase(word@),
            word@.len() <= 13,
            n == chars@.len(),
            n == word@.len(),
            forall|k: int|
                0 <= k < n ==> (#[trigger] chars@[k]) as int == char_value(word@[k]),
            i <= n,
            hash as int == polyhash(word@.take(i as int)),
            hash < base_pow(i as nat),
        decreases n - i,
    {
        proof {
            assert(lowercase(word@.take(i + 1)));
            assert(word@.take(i + 1).drop_last() =~= word@.take(i as int));
            assert(word@.take(i + 1).last() == word@[i as int]);
            lemma_base_pow_mono((i + 1) as nat, 13);
            assert(base_pow(13) == 10260628712958602189) by {
                reveal_with_fuel(base_pow, 14);
            }
        }
        hash = hash * BASE;
        hash = hash + chars[i];
        i = i + 1;
    }
    proof {
        assert(word@.take(n as int) =~= word@);
    }
    hash
}

/// The green and yellow difference rows between a guess and the answer, as
/// zeros and ones: position `i` is green when the letters at `i` agree, and
/// yellow when the guess's letter at `i` occurs anywhere in the answer.
/// Positions past a word's end compare as absent letters.
pub fn compute_diff_u64(word: &str, final_word: &str) -> (r: Vec<Vec<u64>>)
    ensures
        r@.len() == 2,
        r@[0]@.len() == WORD_LEN,
        r@[1]@.len() == WORD_LEN,
        forall|i: int|
            0 <= i < WORD_LEN ==> (#[trigger] r@[0]@[i]) == (if nth_char(word@, i) == nth_char(
                final_word@,
                i,
            ) {
                1u64
            } else {
                0u64
            }),
        forall|i: int|
            0 <= i < WORD_LEN ==> (#[trigger] r@[1]@[i]) == (if exists|j: int|
                0 <= j < WORD_LEN && nth_char(word@, i) == nth_char(final_word@, j) {
                1u64
            } else {
                0u64
            }),
{
    let mut res: Vec<Vec<u64>> = Vec::new();
    let wlen = word.unicode_len();
    let flen = final_word.unicode_len();
    let mut green: Vec<u64> = Vec::new();
    let mut i: usize = 0;
    while i < WORD_LEN
        invariant
            wlen == word@.len(),
            flen == final_word@.len(),
            i <= WORD_LEN,
            green@.len() == i,
            forall|k: int|
                0 <= k < i ==> (#[trigger] green@[k]) == (if nth_char(word@, k) == nth_char(
                    final_word@,
                    k,
                ) {
                    1u64
                } else {
                    0u64
                }),
        decreases WORD_LEN - i,
    {
        let same = if i < wlen && i < flen {
            word.get_char(i) == final_word.get_char(i)
        } else {
            i >= wlen && i >= flen
        };
        if same {
            green.push(1);
        } else {
            green.push(0);
        }
        i = i + 1;
    }
    res.push(green);

    let mut yellow: Vec<u64> = Vec::new();
    let mut i: usize = 0;
    while i < WORD_LEN
        invariant
            wlen == word@.len(),
            flen == final_word@.len(),
            i <= WORD_LEN,
            yellow@.len() == i,
            forall|k: int|
                0 <= k < i ==> (#[trigger] yellow@[k]) == (if exists|j: int|
                    0 <= j < WORD_LEN && nth_char(word@, k) == nth_char(final_word@, j) {
                    1u64
                } else {
                    0u64
                }),
        decreases WORD_LEN - i,
    {
        let mut hit = false;
        let mut j: usize = 0;
        while j < WORD_LEN
            invariant
                wlen == word@.len(),
                flen == final_word@.len(),
                i < WORD_LEN,
                j <= WORD_LEN,
                hit == exists|j2: int|
                    0 <= j2 < j && nth_char(word@, i as int) == nth_char(final_word@, j2),
            decreases WORD_LEN - j,
        {
            let same = if i < wlen && j < flen {
                word.get_char(i) == final_word.get_char(j)
            } else {
                i >= wlen && j >= flen
            };
            proof {
                if same {
                    assert(nth_char(word@, i as int) == nth_char(final_word@, j as int));
                }
            }
            hit = hit || same;
            j = j + 1;
        }
        if hit {
            yellow.push(1);
        } else {
            yellow.push(0);
        }
        i = i + 1;
    }
    res.push(yellow);
    proof {
        assert(res@[0]@.len() == WORD_LEN);
    }
    res
}

} // verus!
