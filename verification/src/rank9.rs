//! Rank9: a bit vector indexed for constant-time rank and binary-searched
//! select.
//!
//! The bits are grouped into basic blocks of eight broadwords (512 bits).
//! Each block keeps a [`Counts`] record: the number of ones strictly before
//! the block, and seven 9-bit fields packed into one word, where field
//! `k - 1` holds the ones in the first `k` words of the block.  A final
//! sentinel block whose counters cover the very end of the vector lets
//! `rank` at the total length read the same way as any other position.
//!
//! `rank1(i)` adds three numbers: the block counter, the packed field for
//! the word of `i` within its block, and the ones in the low `i % 64` bits
//! of that word.  `select(b, n)` binary-searches the block counters for the
//! block holding the `n`-th matching bit, scans the seven packed fields for
//! its word, and finishes with the broadword select primitive.

use crate::bitseq::{
    is_select_of, lemma_rank_agree, lemma_rank_bool_split, lemma_rank_bounds, lemma_rank_monotone,
    lemma_rank_position, lemma_select_exists, lemma_words_bits_push, lemma_words_rank_split,
    nth_bit, rank_of, word_bits, words_bits,
};
use crate::dictionary::{Access, BitRank, BitSelect, Collection, Rank, Select};
use crate::utils::div_ceil_spec;
use vstd::prelude::*;

verus! {

/// Field `k` of a packed `word_ranks` value: the cumulative count for the
/// first `k` words of a block, `k` in `0 ..= 7`.  Field 0 is implicitly 0
/// and not stored.
pub open spec fn wr_field(wr: u64, k: int) -> int {
    if k <= 0 {
        0
    } else {
        ((wr >> ((9 * (k - 1)) as u64)) & 0x1ff) as int
    }
}

/// Counters for one basic block of eight broadwords.
#[derive(Clone, Copy, Debug)]
pub struct Counts {
    /// The number of ones strictly before this block.
    _block_rank: u64,
    /// Seven packed 9-bit fields of in-block cumulative counts.
    word_ranks: u64,
}

impl Counts {
    /// The packed fields are non-decreasing and field `k` never exceeds the
    /// `64 * k` bits it counts over.
    pub closed spec fn wf(&self) -> bool {
        forall|k: int|
            1 <= k <= 7 ==> wr_field(self.word_ranks, k - 1) <= #[trigger] wr_field(
                self.word_ranks,
                k,
            ) <= 64 * k
    }

    /// The cumulative in-block count of `bit` up to word `k`.
    pub closed spec fn word_rank_spec(&self, bit: bool, k: int) -> int {
        if bit {
            wr_field(self.word_ranks, k)
        } else {
            64 * k - wr_field(self.word_ranks, k)
        }
    }

    /// The count of `bit` before block `block_idx`, given the block's
    /// one-count.
    pub closed spec fn block_rank_spec(&self, bit: bool, block_idx: int) -> int {
        if bit {
            self._block_rank as int
        } else {
            512 * block_idx - self._block_rank
        }
    }

    /// The `bit`-count within the block up to but not including word `i`.
    pub fn word_rank(&self, bit: bool, i: usize) -> (r: usize)
        requires
            self.wf(),
            i < 8,
        ensures
            r == self.word_rank_spec(bit, i as int),
            r <= 64 * i,
    {
        if i == 0 {
            0
        } else {
            let ones = ((self.word_ranks >> ((9 * (i - 1)) as u64)) & 0x1ff) as usize;
            proof {
                assert(wr_field(self.word_ranks, i as int) <= 64 * i);
                assert(wr_field(self.word_ranks, i as int - 1) <= wr_field(
                    self.word_ranks,
                    i as int,
                ));
            }
            if bit {
                ones
            } else {
                64 * i - ones
            }
        }
    }

    /// The `bit`-count in all blocks before block `block_idx`.
    pub fn block_rank(&self, bit: bool, block_idx: usize) -> (r: usize)
        requires
            self.block_rank_spec(false, block_idx as int) >= 0,
            512 * block_idx <= usize::MAX,
        ensures
            r == self.block_rank_spec(bit, block_idx as int),
    {
        if bit {
            self._block_rank as usize
        } else {
            512 * block_idx - (self._block_rank as usize)
        }
    }

    /// The smallest word index `i` such that the first `i + 1` words of the
    /// block hold at least `n` `bit`-valued bits, capped at 7.
    pub fn select_word(&self, bit: bool, n: usize) -> (r: usize)
        requires
            self.wf(),
            1 <= n,
        ensures
            r <= 7,
            self.word_rank_spec(bit, r as int) < n,
            r < 7 ==> n <= self.word_rank_spec(bit, r as int + 1),
    {
        let mut i: usize = 0;
        while i < 7
            invariant
                i <= 7,
                self.wf(),
                1 <= n,
                forall|j: int| 0 <= j <= i ==> #[trigger] self.word_rank_spec(bit, j) < n,
            decreases 7 - i,
        {
            if n <= self.word_rank(bit, i + 1) {
                return i;
            }
            i = i + 1;
        }
        7
    }
}

/// `ws` extended with zero words up to length `n`.
pub open spec fn zext(ws: Seq<u64>, n: int) -> Seq<u64> {
    ws + Seq::new((n - ws.len()) as nat, |i: int| 0u64)
}

/// Zero-extending a buffer keeps its bits and adds only clear bits.
proof fn lemma_zext_bits(ws: Seq<u64>, n: int)
    requires
        ws.len() <= n,
    ensures
        zext(ws, n).len() == n,
        forall|i: int|
            0 <= i < 64 * ws.len() ==> words_bits(zext(ws, n))[i] == words_bits(ws)[i],
        forall|i: int| 64 * ws.len() <= i < 64 * n ==> !words_bits(zext(ws, n))[i],
{
    let z = zext(ws, n);
    assert forall|i: int|
        0 <= i < 64 * ws.len() implies words_bits(z)[i] == words_bits(ws)[i] by {
        assert(0 <= i / 64 < ws.len() && 0 <= i % 64 < 64) by (nonlinear_arith)
            requires
                0 <= i < 64 * ws.len(),
        ;
    }
    assert forall|i: int| 64 * ws.len() <= i < 64 * n implies !words_bits(z)[i] by {
        assert(ws.len() <= i / 64 < n && 0 <= i % 64 < 64) by (nonlinear_arith)
            requires
                64 * ws.len() <= i < 64 * n,
        ;
        assert(z[i / 64] == 0u64);
        let j = (i % 64) as u64;
        assert((0u64 >> j) & 1 == 0) by (bit_vector);
    }
}

/// Inserting a 9-bit field at an empty position `s` of a packed word sets
/// that field and leaves everything above it clear.
proof fn lemma_wr_insert(wr: u64, c: u64, s: u64)
    by (bit_vector)
    requires
        c < 512,
        s <= 54,
        wr >> s == 0,
    ensures
        ((wr | (c << s)) >> s) & 0x1ff == c,
        (wr | (c << s)) >> ((s + 9) as u64) == 0,
{
}

/// Inserting a field at `s` does not disturb a field at a lower offset.
proof fn lemma_wr_keep(wr: u64, c: u64, s: u64, t: u64)
    by (bit_vector)
    requires
        c < 512,
        t + 9 <= s,
        s <= 54,
    ensures
        ((wr | (c << s)) >> t) & 0x1ff == (wr >> t) & 0x1ff,
{
}

/// A bit vector with two-level counters for fast rank and select.
#[derive(Debug)]
pub struct Rank9 {
    /// Length of the bit vector in bits.
    bits: usize,
    /// The bit vector data, padded with zero words to cover every block
    /// the counters describe.
    buffer: Vec<u64>,
    /// One record per basic block, plus a sentinel block at the end.
    counts: Vec<Counts>,
}

impl View for Rank9 {
    type V = Seq<bool>;

    closed spec fn view(&self) -> Seq<bool> {
        words_bits(self.buffer@).take(self.bits as int)
    }
}

impl Rank9 {
    /// The structural invariant: the buffer covers every counted block,
    /// padding bits are clear, and every counter equals the rank it claims.
    pub closed spec fn wf(&self) -> bool {
        &&& self.counts@.len() >= 1
        &&& self.buffer@.len() == 8 * self.counts@.len()
        &&& 64 * self.buffer@.len() <= usize::MAX
        &&& self.bits <= 512 * (self.counts@.len() - 1)
        &&& forall|i: int|
            self.bits <= i < 64 * self.buffer@.len() ==> !words_bits(self.buffer@)[i]
        &&& forall|b: int|
            0 <= b < self.counts@.len() ==> #[trigger] self.counts@[b]._block_rank == rank_of(
                words_bits(self.buffer@),
                true,
                512 * b,
            )
        &&& forall|b: int, k: int|
            0 <= b < self.counts@.len() && 1 <= k <= 7 ==> #[trigger] wr_field(
                self.counts@[b].word_ranks,
                k,
            ) == rank_of(words_bits(self.buffer@), true, 512 * b + 64 * k) - rank_of(
                words_bits(self.buffer@),
                true,
                512 * b,
            )
    }

    /// The count of `bit` in the buffer's bits before block `i`.
    pub closed spec fn block_cum(&self, bit: bool, i: int) -> int {
        if bit {
            rank_of(words_bits(self.buffer@), true, 512 * i)
        } else {
            512 * i - rank_of(words_bits(self.buffer@), true, 512 * i)
        }
    }

    /// Positions within any counted block stay inside the buffer's bits.
    proof fn lemma_block_pos(&self, b: int, k: int)
        requires
            self.wf(),
            0 <= b <= self.counts@.len(),
            0 <= k <= 512,
        ensures
            b < self.counts@.len() ==> 512 * b + k <= 64 * self.buffer@.len(),
            512 * b <= 64 * self.buffer@.len(),
    {
        assert(512 * self.counts@.len() == 64 * self.buffer@.len()) by (nonlinear_arith)
            requires
                self.buffer@.len() == 8 * self.counts@.len(),
        ;
        assert(b < self.counts@.len() ==> 512 * b + 512 <= 512 * self.counts@.len())
            by (nonlinear_arith)
            requires
                0 <= b,
        ;
        assert(512 * b <= 512 * self.counts@.len()) by (nonlinear_arith)
            requires
                0 <= b <= self.counts@.len(),
        ;
    }

    /// The counters of every block satisfy the per-block invariant.
    proof fn lemma_counts_wf(&self, b: int)
        requires
            self.wf(),
            0 <= b < self.counts@.len(),
        ensures
            self.counts@[b].wf(),
    {
        let wb = words_bits(self.buffer@);
        self.lemma_block_pos(b, 512);
        assert forall|k: int|
            1 <= k <= 7 implies wr_field(self.counts@[b].word_ranks, k - 1) <= #[trigger] wr_field(
            self.counts@[b].word_ranks,
            k,
        ) <= 64 * k by {
            lemma_rank_monotone(wb, true, 512 * b + 64 * (k - 1), 512 * b + 64 * k);
            lemma_rank_monotone(wb, true, 512 * b, 512 * b + 64 * k);
            if k == 1 {
                assert(wr_field(self.counts@[b].word_ranks, 0) == 0);
            }
        }
    }

    /// `block_cum` counts exactly the `bit`-rank at the block boundary.
    proof fn lemma_block_cum_is_rank(&self, bit: bool, i: int)
        requires
            self.wf(),
            0 <= i <= self.counts@.len(),
        ensures
            self.block_cum(bit, i) == rank_of(words_bits(self.buffer@), bit, 512 * i),
            0 <= self.block_cum(bit, i) <= 512 * i,
    {
        self.lemma_block_pos(i, 0);
        if !bit {
            lemma_rank_bool_split(words_bits(self.buffer@), 512 * i);
        }
        lemma_rank_bounds(words_bits(self.buffer@), bit, 512 * i);
    }

    /// Block boundaries are reached in order: `block_cum` is monotone.
    proof fn lemma_block_cum_monotone(&self, bit: bool, i: int, j: int)
        requires
            self.wf(),
            0 <= i <= j <= self.counts@.len(),
        ensures
            self.block_cum(bit, i) <= self.block_cum(bit, j),
    {
        self.lemma_block_cum_is_rank(bit, i);
        self.lemma_block_cum_is_rank(bit, j);
        assert(512 * i <= 512 * j);
        lemma_rank_monotone(words_bits(self.buffer@), bit, 512 * i, 512 * j);
    }

    /// The in-block cumulative count of `bit` up to word `k` of block `b`
    /// is what the packed field claims.
    proof fn lemma_word_rank_is_rank(&self, bit: bool, b: int, k: int)
        requires
            self.wf(),
            0 <= b < self.counts@.len(),
            0 <= k <= 8,
        ensures
            (if k < 8 {
                self.counts@[b].word_rank_spec(bit, k)
            } else {
                self.block_cum(bit, b + 1) - self.block_cum(bit, b)
            }) == rank_of(words_bits(self.buffer@), bit, 512 * b + 64 * k) - rank_of(
                words_bits(self.buffer@),
                bit,
                512 * b,
            ),
    {
        let wb = words_bits(self.buffer@);
        self.lemma_block_pos(b, 512);
        if k == 8 {
            assert(512 * (b + 1) == 512 * b + 64 * 8);
            self.lemma_block_cum_is_rank(bit, b);
            self.lemma_block_cum_is_rank(bit, b + 1);
            if !bit {
                lemma_rank_bool_split(wb, 512 * b);
                lemma_rank_bool_split(wb, 512 * b + 64 * 8);
            }
        } else if !bit {
            lemma_rank_bool_split(wb, 512 * b);
            lemma_rank_bool_split(wb, 512 * b + 64 * k);
        }
    }

    /// The bit at position `n`.
    fn get_bit(&self, n: usize) -> (r: bool)
        requires
            self.wf(),
            n < self.bits,
        ensures
            r == self@[n as int],
    {
        proof {
            assert(0 <= n as int / 64 < self.buffer@.len() && n as int % 64 < 64)
                by (nonlinear_arith)
                requires
                    0 <= n < self.bits && self.bits <= 64 * self.buffer@.len(),
            ;
        }
        let word = self.buffer[n / 64];
        (word >> ((n % 64) as u64)) & 1 == 1
    }

    /// Rank by the three-term formula: block counter, packed field, and
    /// the ones in the low `n % 64` bits of the word holding `n`.
    fn rank1_impl(&self, n: usize) -> (r: usize)
        requires
            self.wf(),
            n <= self.bits,
        ensures
            r == rank_of(self@, true, n as int),
            r <= n,
    {
        let ws = Ghost(self.buffer@);
        let wb = Ghost(words_bits(self.buffer@));
        let word = n / 64;
        let bit_idx = n % 64;
        let block = word / 8;
        let block_word = word % 8;
        proof {
            assert(n as int == 64 * word + bit_idx && 0 <= bit_idx < 64 && word as int == 8 * block
                + block_word && 0 <= block_word < 8) by (nonlinear_arith)
                requires
                    word == n as int / 64 && bit_idx == n as int % 64 && block == word as int / 8
                        && block_word == word as int % 8,
            ;
            assert(512 * self.counts@.len() == 64 * self.buffer@.len()) by (nonlinear_arith)
                requires
                    self.buffer@.len() == 8 * self.counts@.len(),
            ;
            assert(block < self.counts@.len() && word < self.buffer@.len()) by (nonlinear_arith)
                requires
                    n as int == 64 * word + bit_idx && 0 <= bit_idx < 64 && word as int == 8
                        * block + block_word && 0 <= block_word < 8 && n <= self.bits
                        && self.bits <= 512 * (self.counts@.len() - 1) && self.buffer@.len() == 8
                        * self.counts@.len(),
            ;
            assert(512 * block + 64 * block_word == 64 * word as int) by (nonlinear_arith)
                requires
                    word as int == 8 * block + block_word,
            ;
        }
        let c = &self.counts[block];
        let word_rank = if block_word == 0 {
            0
        } else {
            ((c.word_ranks >> ((9 * (block_word - 1)) as u64)) & 0x1ff) as usize
        };
        proof {
            if block_word != 0 {
                let wrv = self.counts@[block as int].word_ranks;
                let s = (9 * (block_word - 1)) as u64;
                assert((wrv >> s) & 0x1ff < 512) by (bit_vector);
                assert(wr_field(wrv, block_word as int) == rank_of(
                    words_bits(self.buffer@),
                    true,
                    512 * (block as int) + 64 * (block_word as int),
                ) - rank_of(words_bits(self.buffer@), true, 512 * (block as int)));
            }
            // The three terms are the ranks of nested prefixes.
            self.lemma_block_pos(block as int, 512);
            lemma_rank_bounds(wb@, true, 512 * block as int);
            lemma_rank_monotone(wb@, true, 512 * block as int, 64 * word as int);
            lemma_rank_monotone(wb@, true, 64 * word as int, n as int);
            lemma_words_rank_split(ws@, word as int, bit_idx as int, true);
            assert(word_rank == rank_of(wb@, true, 64 * word as int) - rank_of(
                wb@,
                true,
                512 * block as int,
            ));
            lemma_rank_bounds(word_bits(ws@[word as int]), true, bit_idx as int);
            lemma_rank_agree(self@, wb@, true, n as int);
        }
        let masked = crate::broadword::rank1(self.buffer[word], bit_idx);
        (c._block_rank as usize) + word_rank + masked
    }
}

impl Rank9 {
    /// `b` is the block holding the `n`-th `bit` of the vector.
    pub closed spec fn is_block_of(&self, bit: bool, n: int, b: int) -> bool {
        self.block_cum(bit, b) < n <= self.block_cum(bit, b + 1)
    }

    /// Some block in `[lower, upper)` holds the `n`-th `bit`.
    pub closed spec fn has_block_in(&self, bit: bool, n: int, lower: int, upper: int) -> bool {
        exists|b: int| lower <= b < upper && #[trigger] self.is_block_of(bit, n, b)
    }

    /// The `n`-th `bit` of the vector lies in some non-sentinel block.
    proof fn lemma_select_block_exists(&self, bit: bool, n: int)
        requires
            self.wf(),
            1 <= n <= rank_of(self@, bit, self.bits as int),
        ensures
            exists|b: int|
                0 <= b < self.counts@.len() - 1 && #[trigger] self.is_block_of(bit, n, b),
    {
        let wb = words_bits(self.buffer@);
        lemma_select_exists(self@, bit, n, self.bits as int);
        let r = choose|r: int|
            1 <= r <= self.bits && #[trigger] rank_of(self@, bit, r) == n && self@[r - 1] == bit;
        let p = r - 1;
        let b = p / 512;
        assert(512 * b <= p && p < 512 * (b + 1) && 0 <= b) by (nonlinear_arith)
            requires
                b == p / 512 && 0 <= p,
        ;
        assert(b < self.counts@.len() - 1) by (nonlinear_arith)
            requires
                512 * b <= p && p < self.bits && self.bits <= 512 * (self.counts@.len() - 1),
        ;
        self.lemma_block_pos(b, 512);
        self.lemma_block_cum_is_rank(bit, b);
        self.lemma_block_cum_is_rank(bit, b + 1);
        // Below the length, the view and the raw buffer bits agree.
        lemma_rank_agree(self@, wb, bit, 512 * b);
        lemma_rank_agree(self@, wb, bit, r);
        // The rank just before the occurrence is n - 1, so the block start
        // is still short of n.
        assert(rank_of(self@, bit, p) == n - 1);
        lemma_rank_monotone(self@, bit, 512 * b, p);
        // And the rank by the end of the block has reached n.
        lemma_rank_monotone(wb, bit, r, 512 * (b + 1));
        assert(self.is_block_of(bit, n, b));
    }

    /// Stage one of select: find the block holding the `n`-th `bit` by
    /// binary search over the cumulative block counters, within the window
    /// `[lower, upper)` known to contain it.
    fn select_block_hlpr(&self, bit: bool, n: usize, lower: usize, upper: usize) -> (r: usize)
        requires
            self.wf(),
            1 <= n,
            upper <= self.counts@.len(),
            exists|b: int| lower <= b < upper && #[trigger] self.is_block_of(bit, n as int, b),
        ensures
            lower <= r < upper,
            self.is_block_of(bit, n as int, r as int),
    {
        let ghost w = choose|b: int|
            lower <= b < upper && #[trigger] self.is_block_of(bit, n as int, b);
        let mut lo = lower;
        let mut hi = upper;
        proof {
            self.lemma_block_cum_monotone(bit, lo as int, w);
            self.lemma_block_cum_monotone(bit, w + 1, hi as int);
        }
        while hi - lo > 1
            invariant
                self.wf(),
                lower <= lo < hi <= upper,
                upper <= self.counts@.len(),
                self.block_cum(bit, lo as int) < n as int,
                n as int <= self.block_cum(bit, hi as int),
            decreases hi - lo,
        {
            let mid = lo + (hi - lo) / 2;
            proof {
                self.lemma_block_cum_is_rank(bit, mid as int);
                assert(512 * mid <= 64 * self.buffer@.len()) by {
                    self.lemma_block_pos(mid as int, 0);
                }
                assert(512 * self.counts@.len() == 64 * self.buffer@.len()) by (nonlinear_arith)
                    requires
                        self.buffer@.len() == 8 * self.counts@.len(),
                ;
            }
            let cum = self.counts[mid].block_rank(bit, mid);
            if cum < n {
                lo = mid;
            } else {
                hi = mid;
            }
        }
        proof {
            // lo is the last block boundary still short of n.
            assert(self.is_block_of(bit, n as int, lo as int));
        }
        lo
    }

    /// Stage one of select over the whole counter array.
    fn select_block(&self, bit: bool, n: usize) -> (r: usize)
        requires
            self.wf(),
            1 <= n,
            n as int <= rank_of(self@, bit, self.bits as int),
        ensures
            r < self.counts@.len() - 1,
            self.is_block_of(bit, n as int, r as int),
    {
        proof {
            self.lemma_select_block_exists(bit, n as int);
        }
        let r = self.select_block_hlpr(bit, n, 0, self.counts.len());
        proof {
            // Only a non-sentinel block can satisfy the bracketing.
            let b = choose|b: int|
                0 <= b < self.counts@.len() - 1 && #[trigger] self.is_block_of(bit, n as int, b);
            if (r as int) < b {
                self.lemma_block_cum_monotone(bit, r as int + 1, b);
            } else if b < r as int {
                self.lemma_block_cum_monotone(bit, b + 1, r as int);
            }
        }
        r
    }

    /// Select: locate the block, then the word inside it through the packed
    /// fields, then the bit through the broadword primitive.
    fn select_impl(&self, bit: bool, n: usize) -> (r: usize)
        requires
            self.wf(),
            n as int <= rank_of(self@, bit, self.bits as int),
        ensures
            is_select_of(self@, bit, n as int, r as int),
    {
        let ws = Ghost(self.buffer@);
        let wb = Ghost(words_bits(self.buffer@));
        if n == 0 {
            return 0;
        }
        let bi = self.select_block(bit, n);
        let c = &self.counts[bi];
        proof {
            self.lemma_counts_wf(bi as int);
            self.lemma_block_cum_is_rank(bit, bi as int);
            self.lemma_block_cum_is_rank(bit, bi as int + 1);
            self.lemma_block_pos(bi as int, 512);
            lemma_rank_bounds(wb@, true, 512 * bi as int);
            assert(512 * self.counts@.len() == 64 * self.buffer@.len()) by (nonlinear_arith)
                requires
                    self.buffer@.len() == 8 * self.counts@.len(),
            ;
            assert(512 * bi < 512 * self.counts@.len()) by (nonlinear_arith)
                requires
                    bi < self.counts@.len(),
            ;
        }
        let br = c.block_rank(bit, bi);
        let remaining = n - br;
        proof {
            self.lemma_word_rank_is_rank(bit, bi as int, 8);
            lemma_rank_bounds(wb@, bit, 512 * bi as int);
        }
        let wi = c.select_word(bit, remaining);
        proof {
            self.lemma_word_rank_is_rank(bit, bi as int, wi as int);
            self.lemma_word_rank_is_rank(bit, bi as int, wi as int + 1);
            assert(8 * bi + wi < self.buffer@.len() && 64 * (8 * bi as int + wi as int) == 512
                * bi + 64 * wi) by (nonlinear_arith)
                requires
                    bi < self.counts@.len() - 1 && wi <= 7 && self.buffer@.len() == 8
                        * self.counts@.len(),
            ;
        }
        let w = self.buffer[8 * bi + wi];
        let wr = c.word_rank(bit, wi);
        let residual = remaining - wr;
        proof {
            // The word really holds enough matching bits for the residual.
            lemma_words_rank_split(ws@, 8 * bi as int + wi as int, 64, bit);
            lemma_rank_monotone(wb@, bit, 512 * bi as int, 512 * bi as int + 64 * wi as int);
        }
        let p = crate::broadword::select(w, bit, residual);
        proof {
            lemma_words_rank_split(ws@, 8 * bi as int + wi as int, p as int + 1, bit);
            let pos = 512 * (bi as int) + 64 * (wi as int) + p;
            assert(rank_of(wb@, bit, pos + 1) == n);
            assert(wb@[pos] == word_bits(ws@[8 * bi as int + wi as int])[p as int]) by {
                assert(pos / 64 == 8 * bi + wi && pos % 64 == p) by (nonlinear_arith)
                    requires
                        pos == 64 * (8 * bi as int + wi as int) + p && 0 <= p < 64 && 0 <= bi
                            && 0 <= wi,
                ;
            }
            assert(rank_of(wb@, bit, pos) == n - 1);
            lemma_rank_agree(self@, wb@, bit, self.bits as int);
            lemma_rank_position(wb@, bit, pos, self.bits as int, n as int);
            lemma_rank_agree(self@, wb@, bit, pos + 1);
        }
        512 * bi + 64 * wi + p + 1
    }
}

impl Collection for Rank9 {
    open spec fn valid(&self) -> bool {
        self.wf()
    }

    open spec fn seq_len(&self) -> nat {
        self@.len()
    }

    fn len(&self) -> (r: usize) {
        self.bits
    }
}

impl Access<bool> for Rank9 {
    open spec fn access_seq(&self) -> Seq<bool> {
        self@
    }

    fn get(&self, n: usize) -> (r: bool) {
        self.get_bit(n)
    }
}

impl Rank<bool> for Rank9 {
    open spec fn rank_seq(&self) -> Seq<bool> {
        self@
    }

    fn rank(&self, el: bool, n: usize) -> (r: usize) {
        if el {
            self.rank1(n)
        } else {
            self.rank0(n)
        }
    }
}

impl BitRank for Rank9 {
    open spec fn bit_seq(&self) -> Seq<bool> {
        self@
    }

    fn rank0(&self, n: usize) -> (r: usize) {
        let ones = self.rank1_impl(n);
        proof {
            lemma_rank_bool_split(self@, n as int);
        }
        n - ones
    }

    fn rank1(&self, n: usize) -> (r: usize) {
        self.rank1_impl(n)
    }
}

/// Builds the counter array of a [`Rank9`] from a stream of broadwords.
pub struct CountsBuilder {
    /// The number of words pushed so far.
    length: usize,
    /// One finished record per complete block.
    counts: Vec<Counts>,
    /// The record being accumulated for the current block.
    accum: Counts,
    /// Ones seen in the current block.
    block_accum: u64,
    /// Ones seen in total.
    rank_accum: u64,
    /// The words pushed, for specification only.
    words: Ghost<Seq<u64>>,
}

impl View for CountsBuilder {
    type V = Seq<u64>;

    closed spec fn view(&self) -> Seq<u64> {
        self.words@
    }
}

impl CountsBuilder {
    /// The builder's invariant: every stored record and every accumulator
    /// equals the rank it stands for.
    pub closed spec fn wf(&self) -> bool {
        let wb = words_bits(self.words@);
        let blk = 512 * (self.length as int / 8);
        &&& self.words@.len() == self.length
        &&& self.length <= usize::MAX / 64
        &&& self.counts@.len() == self.length as int / 8
        &&& self.rank_accum == rank_of(wb, true, 64 * self.length as int)
        &&& self.accum._block_rank == rank_of(wb, true, blk)
        &&& self.block_accum == rank_of(wb, true, 64 * self.length as int) - rank_of(wb, true, blk)
        &&& self.accum.word_ranks >> ((9 * (self.length as int % 8)) as u64) == 0
        &&& forall|k: int|
            1 <= k <= self.length as int % 8 ==> #[trigger] wr_field(self.accum.word_ranks, k)
                == rank_of(wb, true, blk + 64 * k) - rank_of(wb, true, blk)
        &&& forall|b: int|
            0 <= b < self.counts@.len() ==> #[trigger] self.counts@[b]._block_rank == rank_of(
                wb,
                true,
                512 * b,
            )
        &&& forall|b: int, k: int|
            0 <= b < self.counts@.len() && 1 <= k <= 7 ==> #[trigger] wr_field(
                self.counts@[b].word_ranks,
                k,
            ) == rank_of(wb, true, 512 * b + 64 * k) - rank_of(wb, true, 512 * b)
    }

    /// An empty builder; `cap` is a size hint in broadwords.
    pub fn with_capacity(cap: usize) -> (r: CountsBuilder)
        ensures
            r.wf(),
            r@ == Seq::<u64>::empty(),
    {
        let blocks = crate::utils::div_ceil(cap, 8);
        let r = CountsBuilder {
            length: 0,
            counts: Vec::with_capacity(blocks),
            accum: Counts { _block_rank: 0, word_ranks: 0 },
            block_accum: 0,
            rank_accum: 0,
            words: Ghost(Seq::empty()),
        };
        proof {
            assert(0u64 >> 0u64 == 0) by (bit_vector);
        }
        r
    }

    /// Feeds one broadword: the running totals grow by its ones, and on a
    /// block boundary the finished record is stored.
    pub fn push(&mut self, word: u64)
        requires
            old(self).wf(),
            old(self)@.len() < usize::MAX / 64,
        ensures
            final(self).wf(),
            final(self)@ == old(self)@.push(word),
    {
        let ghost prev = *self;
        let ghost len = prev.length as int;
        let ghost oldwb = words_bits(prev.words@);
        let ghost neww = prev.words@.push(word);
        let ghost newwb = words_bits(neww);
        let ghost blk = 512 * (len / 8);
        proof {
            lemma_words_bits_push(prev.words@, word);
            assert(forall|j: int| 0 <= j < 64 * len ==> newwb[j] == oldwb[j]);
            assert forall|i: int| 0 <= i <= 64 * len implies rank_of(newwb, true, i) == rank_of(
                oldwb,
                true,
                i,
            ) by {
                lemma_rank_agree(newwb, oldwb, true, i);
            }
            crate::bitseq::lemma_words_rank_word(neww, len, true);
            assert(0 <= len / 8 && 8 * (len / 8) <= len && len < 8 * (len / 8) + 8)
                by (nonlinear_arith)
                requires
                    0 <= len,
            ;
            assert(blk <= 64 * len) by (nonlinear_arith)
                requires
                    8 * (len / 8) <= len && blk == 512 * (len / 8),
            ;
            lemma_rank_bounds(newwb, true, 64 * len + 64);
            lemma_rank_monotone(newwb, true, blk, 64 * len + 64);
            assert(64 * (len + 1) <= 64 * (usize::MAX as int / 64)) by (nonlinear_arith)
                requires
                    len + 1 <= usize::MAX as int / 64,
            ;
            assert(64 * (usize::MAX as int / 64) <= usize::MAX as int) by (nonlinear_arith);
        }
        let ones = crate::broadword::pop_count(word) as u64;
        self.rank_accum = self.rank_accum + ones;
        self.block_accum = self.block_accum + ones;
        if self.length % 8 == 7 {
            // This word completes its block: store the record and open the
            // next block at the new running total.
            self.counts.push(self.accum);
            self.block_accum = 0;
            self.accum = Counts { _block_rank: self.rank_accum, word_ranks: 0 };
            proof {
                assert((len + 1) / 8 == len / 8 + 1 && (len + 1) % 8 == 0 && 512 * ((len + 1) / 8)
                    == 64 * (len + 1)) by (nonlinear_arith)
                    requires
                        len % 8 == 7 && 0 <= len,
                ;
                assert(0u64 >> 0u64 == 0) by (bit_vector);
                assert(512 * (len / 8) + 64 * 7 <= 64 * len) by (nonlinear_arith)
                    requires
                        len % 8 == 7 && 0 <= len,
                ;
            }
        } else {
            let m = self.length % 8;
            let c = self.block_accum;
            proof {
                assert((len + 1) / 8 == len / 8 && (len + 1) % 8 == m + 1 && 0 <= m <= 6)
                    by (nonlinear_arith)
                    requires
                        len % 8 == m && m != 7 && 0 <= len,
                ;
                // The block so far spans at most seven words, so the new
                // field value fits in nine bits.
                assert(64 * (len + 1) - blk == 64 * (m + 1)) by (nonlinear_arith)
                    requires
                        blk == 512 * (len / 8) && len % 8 == m && 0 <= len,
                ;
                lemma_rank_monotone(newwb, true, blk, 64 * (len + 1));
                lemma_rank_bounds(newwb, true, blk);
                lemma_wr_insert(prev.accum.word_ranks, c, (9 * m) as u64);
                assert forall|k: int|
                    1 <= k <= m implies wr_field(
                    prev.accum.word_ranks | (c << ((9 * m) as u64)),
                    k,
                ) == wr_field(prev.accum.word_ranks, k) by {
                    lemma_wr_keep(prev.accum.word_ranks, c, (9 * m) as u64, (9 * (k - 1)) as u64);
                }
            }
            self.accum.word_ranks = self.accum.word_ranks | (c << ((9 * m) as u64));
        }
        self.length = self.length + 1;
        self.words = Ghost(neww);
        proof {
            let fin = *self;
            let cl_old = prev.counts@.len() as int;
            let mm = len % 8;
            assert(fin.counts@.len() == (len + 1) / 8);
            // Every stored record keeps describing its block: its positions
            // lie within the words already pushed, where old and new bits
            // agree; the record stored on a boundary is the old accumulator.
            assert forall|b2: int|
                0 <= b2 < fin.counts@.len() implies #[trigger] fin.counts@[b2]._block_rank
                == rank_of(newwb, true, 512 * b2) by {
                assert(512 * b2 + 512 <= 64 * (len + 1)) by (nonlinear_arith)
                    requires
                        0 <= b2 && b2 < (len + 1) / 8,
                ;
                if b2 < cl_old {
                    assert(prev.counts@[b2]._block_rank == rank_of(oldwb, true, 512 * b2));
                } else {
                    assert(fin.counts@[b2] == prev.accum);
                    assert(512 * b2 == blk) by (nonlinear_arith)
                        requires
                            b2 == len / 8 && blk == 512 * (len / 8),
                    ;
                }
            }
            assert forall|b2: int, k: int|
                0 <= b2 < fin.counts@.len() && 1 <= k <= 7 implies #[trigger] wr_field(
                fin.counts@[b2].word_ranks,
                k,
            ) == rank_of(newwb, true, 512 * b2 + 64 * k) - rank_of(newwb, true, 512 * b2) by {
                assert(512 * b2 + 512 <= 64 * (len + 1)) by (nonlinear_arith)
                    requires
                        0 <= b2 && b2 < (len + 1) / 8,
                ;
                if b2 < cl_old {
                    assert(512 * b2 + 512 <= 64 * len) by (nonlinear_arith)
                        requires
                            0 <= b2 && b2 < len / 8,
                    ;
                    assert(wr_field(prev.counts@[b2].word_ranks, k) == rank_of(
                        oldwb,
                        true,
                        512 * b2 + 64 * k,
                    ) - rank_of(oldwb, true, 512 * b2));
                } else {
                    assert(fin.counts@[b2] == prev.accum);
                    assert(512 * b2 == blk && blk + 64 * k <= 64 * len) by (nonlinear_arith)
                        requires
                            b2 == len / 8 && blk == 512 * (len / 8) && len % 8 == 7 && k <= 7
                                && 0 <= len,
                    ;
                    assert(wr_field(prev.accum.word_ranks, k) == rank_of(oldwb, true, blk + 64
                        * k) - rank_of(oldwb, true, blk));
                }
            }
            // The accumulator's packed fields each hold the in-block rank up
            // to their word.
            if mm != 7 {
                assert forall|k: int|
                    1 <= k <= (len + 1) % 8 implies #[trigger] wr_field(fin.accum.word_ranks, k)
                    == rank_of(newwb, true, 512 * ((len + 1) / 8) + 64 * k) - rank_of(
                    newwb,
                    true,
                    512 * ((len + 1) / 8),
                ) by {
                    assert(512 * ((len + 1) / 8) == blk) by (nonlinear_arith)
                        requires
                            (len + 1) / 8 == len / 8 && blk == 512 * (len / 8),
                    ;
                    if k <= mm {
                        assert(wr_field(prev.accum.word_ranks, k) == rank_of(
                            oldwb,
                            true,
                            blk + 64 * k,
                        ) - rank_of(oldwb, true, blk));
                        assert(blk + 64 * k <= 64 * len) by (nonlinear_arith)
                            requires
                                blk == 512 * (len / 8) && k <= len % 8 && 0 <= len,
                        ;
                    } else {
                        assert(blk + 64 * k == 64 * (len + 1)) by (nonlinear_arith)
                            requires
                                blk == 512 * (len / 8) && k == len % 8 + 1 && 0 <= len,
                        ;
                    }
                }
            }
        }
    }

    /// Pads the stream to a block boundary and appends the sentinel record,
    /// so the counters cover every bit pushed.
    #[verifier::rlimit(60)]
    pub fn finish(self) -> (r: Vec<Counts>)
        requires
            self.wf(),
            self@.len() <= usize::MAX / 64 - 16,
        ensures
            r@.len() == div_ceil_spec(self@.len() as int, 8) + 1,
            counts_cover(r@, self@),
    {
        let ghost orig = self.words@;
        proof {
            crate::utils::lemma_div_ceil_bounds(orig.len() as int, 8);
        }
        let mut b = self;
        while b.length % 8 != 0
            invariant
                b.wf(),
                b.words@ == zext(orig, b.length as int),
                orig.len() <= b.length,
                b.length as int <= 8 * div_ceil_spec(orig.len() as int, 8),
                8 * div_ceil_spec(orig.len() as int, 8) < orig.len() + 8,
                orig.len() <= usize::MAX / 64 - 16,
            decreases (8 - (b.length as int % 8)) % 8,
        {
            proof {
                assert((b.length as int) < 8 * div_ceil_spec(orig.len() as int, 8))
                    by (nonlinear_arith)
                    requires
                        b.length as int % 8 != 0 && (b.length as int) <= 8 * div_ceil_spec(
                            orig.len() as int,
                            8,
                        ),
                ;
            }
            let ghost before = b.words@;
            b.push(0);
            proof {
                assert(b.words@ =~= zext(orig, b.length as int));
            }
        }
        let ghost fwords = b.words@;
        let ghost flen = b.length as int;
        let sentinel = Counts { _block_rank: b.rank_accum, word_ranks: 0 };
        let mut counts = b.counts;
        counts.push(sentinel);
        proof {
            let cl = counts@.len();
            let z = zext(orig, 8 * cl as int);
            let zb = words_bits(z);
            let fwb = words_bits(fwords);
            assert(cl == flen / 8 + 1);
            assert(8 * cl == flen + 8 && div_ceil_spec(orig.len() as int, 8) == flen / 8)
                by (nonlinear_arith)
                requires
                    flen % 8 == 0 && cl == flen / 8 + 1 && orig.len() <= flen && flen <= orig.len()
                        + 7 && 0 <= orig.len(),
            ;
            assert(z =~= zext(fwords, flen + 8));
            lemma_zext_bits(fwords, flen + 8);
            assert forall|i: int| 0 <= i <= 64 * flen implies rank_of(zb, true, i) == rank_of(
                fwb,
                true,
                i,
            ) by {
                lemma_rank_agree(zb, fwb, true, i);
            }
            // Beyond the pushed words everything is clear, so ranks freeze.
            assert forall|i: int|
                64 * flen <= i <= 64 * (flen + 8) implies #[trigger] rank_of(zb, true, i)
                == rank_of(zb, true, 64 * flen) by {
                crate::bitseq::lemma_rank_constant(zb, true, 64 * flen, i);
            }
            assert forall|k: int| 1 <= k <= 7 implies #[trigger] wr_field(0u64, k) == 0 by {
                let ku = (9 * (k - 1)) as u64;
                assert((0u64 >> ku) & 0x1ff == 0) by (bit_vector);
            }
            assert(512 * (cl - 1) == 64 * flen) by (nonlinear_arith)
                requires
                    flen % 8 == 0 && cl == flen / 8 + 1,
            ;
            assert forall|b2: int, k: int|
                0 <= b2 < cl && 1 <= k <= 7 implies #[trigger] wr_field(
                counts@[b2].word_ranks,
                k,
            ) == rank_of(zb, true, 512 * b2 + 64 * k) - rank_of(zb, true, 512 * b2) by {
                assert(512 * b2 + 64 * k <= 64 * flen + 64 * k || b2 == cl - 1)
                    by (nonlinear_arith)
                    requires
                        0 <= b2 < cl && 512 * (cl - 1) == 64 * flen,
                ;
                if b2 < cl - 1 {
                    assert(512 * b2 + 512 <= 64 * flen) by (nonlinear_arith)
                        requires
                            0 <= b2 <= cl - 2 && 512 * (cl - 1) == 64 * flen,
                    ;
                }
            }
        }
        counts
    }
}

/// The counter array `cs` correctly describes the words `ws` once they are
/// zero-extended to `8 * cs.len()` words.
pub closed spec fn counts_cover(cs: Seq<Counts>, ws: Seq<u64>) -> bool {
    let zb = words_bits(zext(ws, 8 * cs.len() as int));
    &&& cs.len() >= 1
    &&& ws.len() <= 8 * cs.len()
    &&& forall|b: int|
        0 <= b < cs.len() ==> #[trigger] cs[b]._block_rank == rank_of(zb, true, 512 * b)
    &&& forall|b: int, k: int|
        0 <= b < cs.len() && 1 <= k <= 7 ==> #[trigger] wr_field(cs[b].word_ranks, k) == rank_of(
            zb,
            true,
            512 * b + 64 * k,
        ) - rank_of(zb, true, 512 * b)
}

/// Assembles a [`Rank9`] from its words and a counter array built over
/// them, padding the buffer with zero words to cover every counted block.
fn finish_structure(words: Vec<u64>, counts: Vec<Counts>, bits: usize) -> (r: Rank9)
    requires
        counts_cover(counts@, words@),
        counts@.len() == div_ceil_spec(words@.len() as int, 8) + 1,
        bits <= 64 * words@.len(),
        words@.len() <= usize::MAX / 64 - 16,
        forall|i: int| bits <= i < 64 * words@.len() ==> !words_bits(words@)[i],
    ensures
        r.wf(),
        r@ == words_bits(words@).take(bits as int),
        r@.len() == bits,
{
    let ghost orig = words@;
    let nwords = words.len();
    let cl = counts.len();
    proof {
        crate::utils::lemma_div_ceil_bounds(orig.len() as int, 8);
        assert(8 * counts@.len() <= orig.len() + 15) by (nonlinear_arith)
            requires
                counts@.len() == div_ceil_spec(orig.len() as int, 8) + 1 && 8 * div_ceil_spec(
                    orig.len() as int,
                    8,
                ) < orig.len() + 8,
        ;
        assert(64 * (orig.len() + 15) <= usize::MAX) by (nonlinear_arith)
            requires
                orig.len() <= usize::MAX as int / 64 - 16 && 64 * (usize::MAX as int / 64)
                    <= usize::MAX as int,
        ;
        assert(64 * (usize::MAX as int / 64) <= usize::MAX as int) by (nonlinear_arith);
    }
    let target = 8 * cl;
    let mut buffer = words;
    while buffer.len() < target
        invariant
            buffer@ == zext(orig, buffer@.len() as int),
            orig.len() <= buffer@.len() <= target,
            target == 8 * counts@.len(),
            64 * target <= usize::MAX,
        decreases target - buffer@.len(),
    {
        buffer.push(0);
        proof {
            assert(buffer@ =~= zext(orig, buffer@.len() as int));
        }
    }
    let r = Rank9 { bits, buffer, counts };
    proof {
        assert(orig.len() <= target);
        assert(r.buffer@ == zext(orig, 8 * r.counts@.len() as int));
        lemma_zext_bits(orig, 8 * r.counts@.len() as int);
        let rb = words_bits(r.buffer@);
        // The length stays within the non-sentinel blocks.
        assert(bits <= 512 * (r.counts@.len() - 1)) by (nonlinear_arith)
            requires
                bits <= 64 * orig.len() && r.counts@.len() == div_ceil_spec(orig.len() as int, 8)
                    + 1 && 8 * div_ceil_spec(orig.len() as int, 8) >= orig.len(),
        ;
        // Padding bits beyond the length are clear.
        assert forall|i: int| bits <= i < 64 * r.buffer@.len() implies !rb[i] by {
            if i < 64 * orig.len() {
                assert(!words_bits(orig)[i]);
            }
        }
        // The view is the prefix of the supplied words' bits.
        assert forall|i: int| 0 <= i < bits implies rb.take(bits as int)[i] == words_bits(
            orig,
        ).take(bits as int)[i] by {
            assert(rb[i] == words_bits(orig)[i]);
        }
        assert(r@ =~= words_bits(orig).take(bits as int));
    }
    r
}

/// Builds a [`Rank9`] from whole broadwords.
pub struct WordBuilder {
    builder: CountsBuilder,
    buffer: Vec<u64>,
}

impl View for WordBuilder {
    type V = Seq<u64>;

    closed spec fn view(&self) -> Seq<u64> {
        self.buffer@
    }
}

impl WordBuilder {
    /// The buffer mirrors exactly the words the counter builder has seen.
    pub closed spec fn wf(&self) -> bool {
        &&& self.builder.wf()
        &&& self.buffer@ == self.builder@
    }

    /// An empty builder; `cap` is a size hint in broadwords.
    pub fn with_capacity(cap: usize) -> (r: WordBuilder)
        ensures
            r.wf(),
            r@ == Seq::<u64>::empty(),
    {
        WordBuilder {
            builder: CountsBuilder::with_capacity(cap),
            buffer: Vec::with_capacity(cap),
        }
    }

    /// Appends one broadword.
    pub fn push(&mut self, word: u64)
        requires
            old(self).wf(),
            old(self)@.len() < usize::MAX / 64 - 16,
        ensures
            final(self).wf(),
            final(self)@ == old(self)@.push(word),
    {
        self.builder.push(word);
        self.buffer.push(word);
    }

    /// Finishes into a Rank9 whose length is the number of bits pushed.
    pub fn finish(self) -> (r: Rank9)
        requires
            self.wf(),
            self@.len() <= usize::MAX / 64 - 16,
        ensures
            r.wf(),
            r@ == words_bits(self@),
            r@.len() == 64 * self@.len(),
    {
        let WordBuilder { builder, buffer } = self;
        let ghost orig = buffer@;
        let nwords = buffer.len();
        proof {
            assert(64 * orig.len() <= usize::MAX) by (nonlinear_arith)
                requires
                    orig.len() <= usize::MAX as int / 64 && 64 * (usize::MAX as int / 64)
                        <= usize::MAX as int,
            ;
            assert(64 * (usize::MAX as int / 64) <= usize::MAX as int) by (nonlinear_arith);
        }
        let bits = 64 * nwords;
        let counts = builder.finish();
        let r = finish_structure(buffer, counts, bits);
        proof {
            assert(r@ =~= words_bits(orig));
        }
        r
    }
}

/// Builds a [`Rank9`] from single bits, accumulating 64 at a time into a
/// broadword.
pub struct Builder {
    words: WordBuilder,
    accum: u64,
    filled: usize,
    size: usize,
}

impl View for Builder {
    type V = Seq<bool>;

    closed spec fn view(&self) -> Seq<bool> {
        words_bits(self.words@) + word_bits(self.accum).take(self.filled as int)
    }
}

impl Builder {
    /// The builder's invariant: the partial word holds `filled` bits and is
    /// clear above them.
    pub closed spec fn wf(&self) -> bool {
        &&& self.filled < 64
        &&& self.accum >> (self.filled as u64) == 0
        &&& self.size == 64 * self.words@.len() + self.filled
        &&& self.words.wf()
        &&& self.words@.len() < usize::MAX / 64 - 17
    }

    /// An empty builder; `cap` is a size hint in bits.
    pub fn with_capacity(cap: usize) -> (r: Builder)
        ensures
            r.wf(),
            r@ == Seq::<bool>::empty(),
    {
        let words = crate::utils::div_ceil(cap, 64);
        let r = Builder { words: WordBuilder::with_capacity(words), accum: 0, filled: 0, size: 0 };
        proof {
            assert(0u64 >> 0u64 == 0) by (bit_vector);
            assert(r@ =~= Seq::<bool>::empty());
        }
        r
    }

    /// Appends one bit.
    pub fn push(&mut self, bit: bool)
        requires
            old(self).wf(),
            old(self)@.len() < 64 * (usize::MAX as int / 64 - 18),
        ensures
            final(self).wf(),
            final(self)@ == old(self)@.push(bit),
    {
        let ghost prev = *self;
        let v: u64 = if bit {
            1
        } else {
            0
        };
        let s = self.filled as u64;
        self.accum = self.accum | (v << s);
        proof {
            let a = prev.accum;
            assert(((a | (v << s)) >> s) & 1 == v && (s + 1 < 64 ==> (a | (v << s)) >> ((s
                + 1) as u64) == 0)) by (bit_vector)
                requires
                    v <= 1 && s < 64 && a >> s == 0,
            ;
            assert forall|j: int| 0 <= j < s implies nth_bit(a | (v << s), j) == nth_bit(
                a,
                j,
            ) by {
                let ju = j as u64;
                assert(((a | (v << s)) >> ju) & 1 == (a >> ju) & 1) by (bit_vector)
                    requires
                        v <= 1 && ju < s && s < 64,
                ;
            }
            assert(word_bits(self.accum).take(s as int + 1) =~= word_bits(a).take(s as int).push(
                bit,
            ));
        }
        self.filled = self.filled + 1;
        self.size = self.size + 1;
        if self.filled == 64 {
            proof {
                lemma_words_bits_push(self.words@, self.accum);
                assert(word_bits(self.accum).take(64) =~= word_bits(self.accum));
            }
            self.words.push(self.accum);
            self.accum = 0;
            self.filled = 0;
            proof {
                assert(0u64 >> 0u64 == 0) by (bit_vector);
                assert(self@ =~= prev@.push(bit));
            }
        } else {
            proof {
                assert(self@ =~= prev@.push(bit));
            }
        }
    }

    /// Flushes the partial word and returns the finished Rank9, whose
    /// length is the exact number of bits pushed.
    pub fn finish(self) -> (r: Rank9)
        requires
            self.wf(),
        ensures
            r.wf(),
            r@ == self@,
    {
        let ghost me = self;
        let Builder { mut words, accum, filled, size } = self;
        let ghost base = words@;
        if filled != 0 {
            words.push(accum);
        }
        let WordBuilder { builder, buffer } = words;
        let ghost orig = buffer@;
        proof {
            if filled != 0 {
                lemma_words_bits_push(base, accum);
                // The flushed word's bits above `filled` are clear.
                assert forall|i: int|
                    size <= i < 64 * orig.len() implies !words_bits(orig)[i] by {
                    assert(i / 64 == base.len() && i % 64 == i - 64 * base.len())
                        by (nonlinear_arith)
                        requires
                            64 * base.len() <= i < 64 * (base.len() + 1),
                    ;
                    let ju = (i - 64 * base.len()) as u64;
                    let s = filled as u64;
                    assert((accum >> ju) & 1 == 0) by (bit_vector)
                        requires
                            accum >> s == 0 && s <= ju < 64,
                    ;
                }
            }
        }
        let counts = builder.finish();
        let r = finish_structure(buffer, counts, size);
        proof {
            if filled != 0 {
                assert(r@ =~= me@);
            } else {
                assert(r@ =~= me@);
            }
        }
        r
    }
}

/// Lower-bound binary search over the sorted range `[lower, upper)` of
/// `xs`: `Ok` with an index holding `target`, or `Err` with the insertion
/// point, before which everything is smaller and from which everything is
/// larger.
pub fn binary_search(xs: &Vec<u64>, target: u64, lower: usize, upper: usize) -> (r: Result<
    usize,
    usize,
>)
    requires
        lower <= upper <= xs@.len(),
        forall|i: int, j: int| #![trigger xs@[i], xs@[j]]
            lower <= i <= j < upper ==> xs@[i] <= xs@[j],
    ensures
        match r {
            Ok(i) => lower <= i < upper && xs@[i as int] == target,
            Err(i) => {
                &&& lower <= i <= upper
                &&& forall|j: int| lower <= j < i ==> #[trigger] xs@[j] < target
                &&& forall|j: int| i <= j < upper ==> #[trigger] xs@[j] > target
            },
        },
{
    let mut lo = lower;
    let mut hi = upper;
    while lo < hi
        invariant
            lower <= lo <= hi <= upper <= xs@.len(),
            forall|i: int, j: int| #![trigger xs@[i], xs@[j]]
                lower <= i <= j < upper ==> xs@[i] <= xs@[j],
            forall|j: int| lower <= j < lo ==> #[trigger] xs@[j] < target,
            forall|j: int| hi <= j < upper ==> #[trigger] xs@[j] > target,
        decreases hi - lo,
    {
        let mid = lo + (hi - lo) / 2;
        if xs[mid] == target {
            return Ok(mid);
        } else if xs[mid] < target {
            lo = mid + 1;
        } else {
            hi = mid;
        }
    }
    Err(lo)
}

/// The elements of `v` at positions `[a, b)`, as a fresh vector.
fn subvec(v: &Vec<usize>, a: usize, b: usize) -> (r: Vec<usize>)
    requires
        a <= b <= v@.len(),
    ensures
        r@ == v@.subrange(a as int, b as int),
{
    let mut r: Vec<usize> = Vec::with_capacity(b - a);
    let mut i = a;
    while i < b
        invariant
            a <= i <= b <= v@.len(),
            r@ == v@.subrange(a as int, i as int),
        decreases b - i,
    {
        r.push(v[i]);
        proof {
            assert(r@ =~= v@.subrange(a as int, i as int + 1));
        }
        i = i + 1;
    }
    r
}

impl Rank9 {
    /// Stage one of select for a sorted batch of counts at once: each
    /// recursive call solves the middle query, then narrows the search
    /// window for the two halves.
    #[verifier::rlimit(80)]
    fn select_all_blocks_rec(&self, bit: bool, ns: Vec<usize>, lower: usize, upper: usize) -> (r:
        Vec<usize>)
        requires
            self.wf(),
            upper <= self.counts@.len(),
            lower <= upper,
            forall|i: int, j: int| #![trigger ns@[i], ns@[j]]
                0 <= i <= j < ns@.len() ==> ns@[i] <= ns@[j],
            forall|i: int|
                0 <= i < ns@.len() ==> self.has_block_in(
                    bit,
                    #[trigger] ns@[i] as int,
                    lower as int,
                    upper as int,
                ),
        ensures
            r@.len() == ns@.len(),
            forall|i: int| 0 <= i < r@.len() ==> lower <= #[trigger] r@[i] && r@[i] < upper,
            forall|i: int|
                0 <= i < r@.len() ==> #[trigger] self.is_block_of(bit, ns@[i] as int, r@[i] as int),
        decreases ns@.len(),
    {
        if ns.len() == 0 {
            return Vec::new();
        }
        let idx = ns.len() / 2;
        proof {
            assert(self.has_block_in(bit, ns@[idx as int] as int, lower as int, upper as int));
            let b0 = choose|b: int|
                lower <= b < upper && #[trigger] self.is_block_of(bit, ns@[idx as int] as int, b);
            assert(1 <= ns@[idx as int] as int) by {
                self.lemma_block_cum_is_rank(bit, b0);
            }
        }
        let pos = self.select_block_hlpr(bit, ns[idx], lower, upper);
        let left: Vec<usize> = if idx > 0 {
            proof {
                // Sorted targets at or before the middle live in blocks at
                // or before `pos`.
                assert forall|i: int| 0 <= i < idx as int implies self.has_block_in(
                    bit,
                    #[trigger] ns@.subrange(0, idx as int)[i] as int,
                    lower as int,
                    pos as int + 1,
                ) by {
                    let ni = ns@[i] as int;
                    assert(self.has_block_in(bit, ni, lower as int, upper as int));
                    let bi = choose|b: int|
                        lower <= b < upper && #[trigger] self.is_block_of(bit, ni, b);
                    if bi > pos as int {
                        self.lemma_block_cum_monotone(bit, pos as int + 1, bi);
                    }
                    assert(ns@.subrange(0, idx as int)[i] == ns@[i]);
                    assert(self.is_block_of(bit, ns@.subrange(0, idx as int)[i] as int, bi));
                }
            }
            self.select_all_blocks_rec(bit, subvec(&ns, 0, idx), lower, pos + 1)
        } else {
            Vec::new()
        };
        let right: Vec<usize> = if idx + 1 < ns.len() {
            proof {
                // Sorted targets after the middle live in blocks at or
                // after `pos`.
                assert forall|i: int|
                    0 <= i < ns@.len() - idx as int - 1 implies self.has_block_in(
                    bit,
                    #[trigger] ns@.subrange(idx as int + 1, ns@.len() as int)[i] as int,
                    pos as int,
                    upper as int,
                ) by {
                    let ni = ns@[idx as int + 1 + i] as int;
                    assert(self.has_block_in(bit, ni, lower as int, upper as int));
                    let bi = choose|b: int|
                        lower <= b < upper && #[trigger] self.is_block_of(bit, ni, b);
                    if bi < pos as int {
                        self.lemma_block_cum_monotone(bit, bi + 1, pos as int);
                    }
                    assert(ns@.subrange(idx as int + 1, ns@.len() as int)[i] == ns@[idx as int + 1
                        + i]);
                    assert(self.is_block_of(
                        bit,
                        ns@.subrange(idx as int + 1, ns@.len() as int)[i] as int,
                        bi,
                    ));
                }
            }
            self.select_all_blocks_rec(bit, subvec(&ns, idx + 1, ns.len()), pos, upper)
        } else {
            Vec::new()
        };
        let ghost lv = left@;
        let mut result = left;
        result.push(pos);
        let mut k: usize = 0;
        while k < right.len()
            invariant
                k <= right@.len(),
                result@ == lv.push(pos) + right@.subrange(0, k as int),
            decreases right@.len() - k,
        {
            result.push(right[k]);
            proof {
                assert(result@ =~= lv.push(pos) + right@.subrange(0, k as int + 1));
            }
            k = k + 1;
        }
        proof {
            assert(result@ =~= lv.push(pos) + right@);
            assert(lv.len() == idx as int);
            assert forall|i: int|
                0 <= i < result@.len() implies (lower <= #[trigger] result@[i] && result@[i]
                < upper) && self.is_block_of(bit, ns@[i] as int, result@[i] as int) by {
                if i < idx as int {
                    assert(result@[i] == lv[i]);
                    assert(ns@.subrange(0, idx as int)[i] == ns@[i]);
                    assert(self.is_block_of(
                        bit,
                        ns@.subrange(0, idx as int)[i] as int,
                        lv[i] as int,
                    ));
                } else if i > idx as int {
                    assert(result@[i] == right@[i - idx as int - 1]);
                    assert(ns@.subrange(idx as int + 1, ns@.len() as int)[i - idx as int - 1]
                        == ns@[i]);
                    assert(self.is_block_of(
                        bit,
                        ns@.subrange(idx as int + 1, ns@.len() as int)[i - idx as int - 1] as int,
                        right@[i - idx as int - 1] as int,
                    ));
                } else {
                    assert(result@[i] == pos);
                }
            }
        }
        result
    }

    /// Stage one of select for a whole sorted batch of counts: the block of
    /// each count, found with search windows that narrow as the batch
    /// splits.
    pub fn select_all_blocks(&self, bit: bool, ns: Vec<usize>) -> (r: Vec<usize>)
        requires
            self.wf(),
            forall|i: int, j: int| #![trigger ns@[i], ns@[j]]
                0 <= i <= j < ns@.len() ==> ns@[i] <= ns@[j],
            forall|i: int|
                0 <= i < ns@.len() ==> 1 <= #[trigger] ns@[i] && ns@[i] as int <= rank_of(
                    self@,
                    bit,
                    self@.len() as int,
                ),
        ensures
            r@.len() == ns@.len(),
            forall|i: int|
                0 <= i < r@.len() ==> #[trigger] self.is_block_of(bit, ns@[i] as int, r@[i] as int),
    {
        proof {
            assert(self@.len() == self.bits);
            assert forall|i: int| 0 <= i < ns@.len() implies self.has_block_in(
                bit,
                #[trigger] ns@[i] as int,
                0,
                self.counts@.len() as int,
            ) by {
                self.lemma_select_block_exists(bit, ns@[i] as int);
                let b = choose|b: int|
                    0 <= b < self.counts@.len() - 1 && #[trigger] self.is_block_of(
                        bit,
                        ns@[i] as int,
                        b,
                    );
                assert(0 <= b < self.counts@.len() && self.is_block_of(bit, ns@[i] as int, b));
            }
        }
        self.select_all_blocks_rec(bit, ns, 0, self.counts.len())
    }
}

impl Rank9 {
    /// A Rank9 over an existing buffer; the caller supplies exactly enough
    /// words and keeps the padding bits of the last word clear.
    pub fn from_vec(v: &Vec<u64>, length_in_bits: usize) -> (r: Rank9)
        requires
            v@.len() == div_ceil_spec(length_in_bits as int, 64),
            v@.len() <= usize::MAX / 64 - 16,
            forall|i: int| length_in_bits <= i < 64 * v@.len() ==> !words_bits(v@)[i],
        ensures
            r.wf(),
            r@ == words_bits(v@).take(length_in_bits as int),
            r@.len() == length_in_bits,
    {
        proof {
            crate::utils::lemma_div_ceil_bounds(length_in_bits as int, 64);
        }
        let mut builder = CountsBuilder::with_capacity(v.len());
        let mut i: usize = 0;
        while i < v.len()
            invariant
                builder.wf(),
                i <= v@.len(),
                builder@ == v@.take(i as int),
                v@.len() <= usize::MAX / 64 - 16,
            decreases v@.len() - i,
        {
            builder.push(v[i]);
            proof {
                assert(builder@ =~= v@.take(i as int + 1));
            }
            i = i + 1;
        }
        proof {
            assert(builder@ =~= v@);
        }
        let counts = builder.finish();
        finish_structure(v.clone(), counts, length_in_bits)
    }
}

impl Select<bool> for Rank9 {
    open spec fn select_seq(&self) -> Seq<bool> {
        self@
    }

    fn select(&self, el: bool, n: usize) -> (r: usize) {
        self.select_impl(el, n)
    }
}

impl BitSelect for Rank9 {
    open spec fn bit_select_seq(&self) -> Seq<bool> {
        self@
    }

    fn select0(&self, n: usize) -> (r: usize) {
        self.select_impl(false, n)
    }

    fn select1(&self, n: usize) -> (r: usize) {
        self.select_impl(true, n)
    }
}

} // verus!
