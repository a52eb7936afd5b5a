//! Rank and select on a single 64-bit broadword.
//!
//! These are the primitives that the packed bit vectors defer to once a
//! query has been narrowed down to one word.  `select` here returns the
//! 0-based position of the bit itself; the dictionary-level convention of
//! "position one past the occurrence" is built on top of it.

use crate::bitseq::{
    is_select_of, lemma_rank_bool_split, lemma_rank_bounds, lemma_rank_position, nth_bit, rank_of,
    word_bits,
};
use vstd::prelude::*;

verus! {

/// The number of set bits in the lowest `min(n, 64)` bits of `x`.
pub fn rank1(x: u64, n: usize) -> (r: usize)
    ensures
        r == rank_of(word_bits(x), true, if n >= 64 {
            64int
        } else {
            n as int
        }),
        r <= 64,
{
    let m: usize = if n >= 64 {
        64
    } else {
        n
    };
    let mut i: usize = 0;
    let mut count: usize = 0;
    while i < m
        invariant
            i <= m <= 64,
            count == rank_of(word_bits(x), true, i as int),
            count <= i,
        decreases m - i,
    {
        proof {
            assert(word_bits(x)[i as int] == nth_bit(x, i as int));
        }
        if (x >> (i as u64)) & 1 == 1 {
            count = count + 1;
        }
        i = i + 1;
    }
    count
}

/// The number of clear bits in the lowest `n` bits of `x`; the caller keeps
/// `n` within the word.
pub fn rank0(x: u64, n: usize) -> (r: usize)
    requires
        n <= 64,
    ensures
        r == rank_of(word_bits(x), false, n as int),
        r <= n,
{
    let ones = rank1(x, n);
    proof {
        lemma_rank_bool_split(word_bits(x), n as int);
        lemma_rank_bounds(word_bits(x), true, n as int);
    }
    n - ones
}

/// The number of set bits in the whole word.
pub fn pop_count(x: u64) -> (r: usize)
    ensures
        r == crate::bitseq::pop_of(x),
        r <= 64,
{
    rank1(x, 64)
}

/// The 0-based position of the `n`-th `bit`-valued bit of `x`, for
/// `n >= 1`: the number of `bit`-valued bits of `x` at positions up to and
/// including the answer is exactly `n`.
pub fn select(x: u64, bit: bool, n: usize) -> (p: usize)
    requires
        1 <= n,
        n as int <= rank_of(word_bits(x), bit, 64),
    ensures
        p < 64,
        word_bits(x)[p as int] == bit,
        rank_of(word_bits(x), bit, p as int + 1) == n as int,
{
    let mut i: usize = 0;
    let mut count: usize = 0;
    loop
        invariant
            i <= 64,
            count == rank_of(word_bits(x), bit, i as int),
            count < n,
            1 <= n,
            n as int <= rank_of(word_bits(x), bit, 64),
        decreases 64 - i,
    {
        proof {
            lemma_rank_position(word_bits(x), bit, i as int, 64, n as int);
            assert(word_bits(x)[i as int] == nth_bit(x, i as int));
        }
        let b = (x >> (i as u64)) & 1 == 1;
        if b == bit {
            if count + 1 == n {
                return i;
            }
            count = count + 1;
        }
        i = i + 1;
    }
}

/// The position returned by [`select`], shifted to the dictionary
/// convention: `0` for `n == 0`, one past the `n`-th occurrence otherwise.
pub fn select_after(x: u64, bit: bool, n: usize) -> (r: usize)
    requires
        n as int <= rank_of(word_bits(x), bit, 64),
    ensures
        is_select_of(word_bits(x), bit, n as int, r as int),
        r <= 64,
{
    if n == 0 {
        return 0;
    }
    let p = select(x, bit, n);
    p + 1
}

} // verus!
