//! A plain packed bit vector with linear-scan rank and select.
//!
//! Bit `i` lives in word `i / 64` at position `i % 64`; the first bit of
//! the vector is the least-significant bit of the first broadword.  Bits in
//! the last word at positions at or past the length are kept at zero, which
//! lets the word-by-word scans ignore the boundary.

use crate::bitseq::{
    is_select_of, lemma_rank_agree, lemma_rank_bounds, lemma_rank_monotone, lemma_rank_position,
    lemma_words_bits_push, lemma_words_rank_split, lemma_wones_is_rank, nth_bit, rank_of,
    word_bits, words_bits, wones,
};
use crate::dictionary::{Access, BitRank, BitSelect, Collection, Rank, Select};
use crate::utils::div_ceil_spec;
use vstd::prelude::*;

verus! {

/// A sequence of bits packed into broadwords.
#[derive(Debug)]
pub struct BitVector {
    /// Length in bits.
    bits: usize,
    /// The packed bits.
    buffer: Vec<u64>,
}

impl View for BitVector {
    type V = Seq<bool>;

    closed spec fn view(&self) -> Seq<bool> {
        words_bits(self.buffer@).take(self.bits as int)
    }
}

impl BitVector {
    /// The structural invariant: the buffer exactly covers the bits, and
    /// the padding bits in the last word are clear.
    pub closed spec fn wf(&self) -> bool {
        &&& self.buffer@.len() == div_ceil_spec(self.bits as int, 64)
        &&& self.bits <= 64 * self.buffer@.len()
        &&& 64 * self.buffer@.len() <= usize::MAX
        &&& forall|i: int|
            self.bits <= i < 64 * self.buffer@.len() ==> !words_bits(self.buffer@)[i]
    }

    /// An all-zero bit vector of the given length.
    pub fn zero(length_in_bits: usize) -> (r: BitVector)
        requires
            length_in_bits <= usize::MAX - 63,
        ensures
            r.wf(),
            r@.len() == length_in_bits,
            forall|i: int| 0 <= i < length_in_bits ==> !r@[i],
    {
        let words = crate::utils::div_ceil(length_in_bits, 64);
        proof {
            crate::utils::lemma_div_ceil_bounds(length_in_bits as int, 64);
        }
        let mut buffer: Vec<u64> = Vec::new();
        let mut k: usize = 0;
        while k < words
            invariant
                k <= words,
                buffer@.len() == k,
                forall|j: int| 0 <= j < k ==> buffer@[j] == 0u64,
            decreases words - k,
        {
            buffer.push(0u64);
            k = k + 1;
        }
        let r = BitVector { bits: length_in_bits, buffer };
        proof {
            assert forall|i: int| 0 <= i < 64 * r.buffer@.len() implies !words_bits(
                r.buffer@,
            )[i] by {
                assert(0 <= i / 64 < r.buffer@.len() && 0 <= i % 64 < 64) by (nonlinear_arith)
                    requires
                        0 <= i < 64 * r.buffer@.len(),
                ;
                let j = (i % 64) as u64;
                assert((0u64 >> j) & 1 == 0) by (bit_vector);
            }
        }
        r
    }

    /// A bit vector over an existing buffer; the caller supplies exactly
    /// enough words and keeps the padding bits of the last word clear.
    pub fn from_vec(v: &Vec<u64>, length_in_bits: usize) -> (r: BitVector)
        requires
            v@.len() == div_ceil_spec(length_in_bits as int, 64),
            64 * v@.len() <= usize::MAX,
            forall|i: int| length_in_bits <= i < 64 * v@.len() ==> !words_bits(v@)[i],
        ensures
            r.wf(),
            r@ == words_bits(v@).take(length_in_bits as int),
            r@.len() == length_in_bits,
    {
        proof {
            crate::utils::lemma_div_ceil_bounds(length_in_bits as int, 64);
        }
        BitVector { bits: length_in_bits, buffer: v.clone() }
    }

    /// The number of ones at positions `0 .. n`: full words are counted
    /// whole, then the partial word is masked down to `n % 64` bits.
    fn rank1_words(&self, n: usize) -> (r: usize)
        requires
            self.wf(),
            n <= self.bits,
        ensures
            r == rank_of(self@, true, n as int),
            r <= n,
    {
        let ws = Ghost(self.buffer@);
        let full = n / 64;
        proof {
            assert(64 * (n as int / 64) <= n && n as int % 64 == n - 64 * (n as int / 64))
                by (nonlinear_arith)
                requires
                    0 <= n,
            ;
        }
        let mut i: usize = 0;
        let mut rank: usize = 0;
        while i < full
            invariant
                i <= full,
                64 * full <= n <= self.bits,
                self.wf(),
                ws@ == self.buffer@,
                rank == wones(ws@, i as int),
                rank <= 64 * i,
            decreases full - i,
        {
            proof {
                assert(64 * i < 64 * full && 64 * full <= 64 * ws@.len()) by (nonlinear_arith)
                    requires
                        i < full && 64 * full <= n && n <= self.bits && self.bits <= 64
                            * ws@.len(),
                ;
                lemma_rank_bounds(word_bits(ws@[i as int]), true, 64);
            }
            let ones = crate::broadword::rank1(self.buffer[i], 64);
            rank = rank + ones;
            i = i + 1;
        }
        proof {
            lemma_wones_is_rank(ws@, full as int);
            lemma_rank_bounds(words_bits(ws@), true, 64 * full as int);
        }
        let r = if full < self.buffer.len() {
            proof {
                lemma_words_rank_split(ws@, full as int, n as int % 64, true);
                lemma_rank_bounds(word_bits(ws@[full as int]), true, n as int % 64);
            }
            rank + crate::broadword::rank1(self.buffer[full], n % 64)
        } else {
            // n == 64 * full lands exactly on the end of the buffer.
            proof {
                assert(64 * full <= n <= self.bits <= 64 * ws@.len() && full >= ws@.len()
                    ==> n == 64 * full) by (nonlinear_arith)
                    requires
                        full == n as int / 64,
                ;
            }
            rank
        };
        proof {
            lemma_rank_agree(self@, words_bits(ws@), true, n as int);
        }
        r
    }

    /// The matching-bit scan behind `select`: find the word holding the
    /// `n`-th `bit`, then defer to the broadword primitive.
    fn select_words(&self, bit: bool, n: usize) -> (r: usize)
        requires
            self.wf(),
            n as int <= rank_of(self@, bit, self.bits as int),
        ensures
            is_select_of(self@, bit, n as int, r as int),
    {
        let ws = Ghost(self.buffer@);
        if n == 0 {
            return 0;
        }
        proof {
            lemma_rank_agree(self@, words_bits(ws@), bit, self.bits as int);
            lemma_rank_monotone(words_bits(ws@), bit, self.bits as int, 64 * ws@.len() as int);
        }
        let mut widx: usize = 0;
        let mut remain: usize = n;
        loop
            invariant
                self.wf(),
                ws@ == self.buffer@,
                widx <= ws@.len(),
                1 <= remain <= n,
                remain == n - rank_of(words_bits(ws@), bit, 64 * widx as int),
                n as int <= rank_of(words_bits(ws@), bit, 64 * ws@.len() as int),
                n as int <= rank_of(self@, bit, self.bits as int),
            decreases ws@.len() - widx,
        {
            proof {
                lemma_rank_position(
                    words_bits(ws@),
                    bit,
                    64 * widx as int,
                    64 * ws@.len() as int,
                    n as int,
                );
            }
            let w = self.buffer[widx];
            let m = if bit {
                crate::broadword::rank1(w, 64)
            } else {
                crate::broadword::rank0(w, 64)
            };
            proof {
                lemma_words_rank_split(ws@, widx as int, 64, bit);
            }
            if remain > m {
                remain = remain - m;
                widx = widx + 1;
            } else {
                let p = crate::broadword::select(w, bit, remain);
                proof {
                    lemma_words_rank_split(ws@, widx as int, p as int + 1, bit);
                    let pos = 64 * widx as int + p;
                    assert(words_bits(ws@)[pos] == word_bits(ws@[widx as int])[p as int]) by {
                        assert(pos / 64 == widx as int && pos % 64 == p) by (nonlinear_arith)
                            requires
                                pos == 64 * widx as int + p && 0 <= p < 64 && 0 <= widx,
                        ;
                    }
                    assert(rank_of(words_bits(ws@), bit, pos) == n - 1);
                    lemma_rank_agree(self@, words_bits(ws@), bit, self.bits as int);
                    lemma_rank_position(
                        words_bits(ws@),
                        bit,
                        pos,
                        self.bits as int,
                        n as int,
                    );
                    lemma_rank_agree(self@, words_bits(ws@), bit, pos + 1);
                }
                return 64 * widx + p + 1;
            }
        }
    }
}

impl Collection for BitVector {
    open spec fn valid(&self) -> bool {
        self.wf()
    }

    open spec fn seq_len(&self) -> nat {
        self@.len()
    }

    fn len(&self) -> (r: usize) {
        self.bits
    }
}

impl Access<bool> for BitVector {
    open spec fn access_seq(&self) -> Seq<bool> {
        self@
    }

    fn get(&self, n: usize) -> (r: bool) {
        proof {
            assert(0 <= n as int / 64 < self.buffer@.len() && n as int % 64 < 64)
                by (nonlinear_arith)
                requires
                    0 <= n < self.bits && self.bits <= 64 * self.buffer@.len(),
            ;
        }
        let word = self.buffer[n / 64];
        (word >> ((n % 64) as u64)) & 1 == 1
    }
}

impl Rank<bool> for BitVector {
    open spec fn rank_seq(&self) -> Seq<bool> {
        self@
    }

    fn rank(&self, el: bool, n: usize) -> (r: usize) {
        if el {
            self.rank1(n)
        } else {
            self.rank0(n)
        }
    }
}

impl BitRank for BitVector {
    open spec fn bit_seq(&self) -> Seq<bool> {
        self@
    }

    fn rank0(&self, n: usize) -> (r: usize) {
        let ones = self.rank1(n);
        proof {
            crate::bitseq::lemma_rank_bool_split(self@, n as int);
            lemma_rank_bounds(self@, true, n as int);
        }
        n - ones
    }

    fn rank1(&self, n: usize) -> (r: usize) {
        self.rank1_words(n)
    }
}

impl Select<bool> for BitVector {
    open spec fn select_seq(&self) -> Seq<bool> {
        self@
    }

    fn select(&self, el: bool, n: usize) -> (r: usize) {
        self.select_words(el, n)
    }
}

impl BitSelect for BitVector {
    open spec fn bit_select_seq(&self) -> Seq<bool> {
        self@
    }

    fn select0(&self, n: usize) -> (r: usize) {
        self.select_words(false, n)
    }

    fn select1(&self, n: usize) -> (r: usize) {
        self.select_words(true, n)
    }
}

/// Builds a [`BitVector`] from bits pushed one at a time: bits accumulate
/// least-significant-first into a broadword, and each full word is appended
/// to the buffer.
#[derive(Debug)]
pub struct Builder {
    buffer: Vec<u64>,
    accum: u64,
    filled: usize,
    size: usize,
}

impl View for Builder {
    type V = Seq<bool>;

    closed spec fn view(&self) -> Seq<bool> {
        words_bits(self.buffer@) + word_bits(self.accum).take(self.filled as int)
    }
}

impl Builder {
    /// The builder's invariant: the partial word holds `filled` bits and is
    /// clear above them.
    pub closed spec fn wf(&self) -> bool {
        &&& self.filled < 64
        &&& self.accum >> (self.filled as u64) == 0
        &&& self.size == 64 * self.buffer@.len() + self.filled
        &&& self.size <= usize::MAX - 63
    }

    /// An empty builder; `cap` is a size hint in bits.
    pub fn with_capacity(cap: usize) -> (r: Builder)
        ensures
            r.wf(),
            r@ == Seq::<bool>::empty(),
    {
        let words = crate::utils::div_ceil(cap, 64);
        let r = Builder { buffer: Vec::with_capacity(words), accum: 0, filled: 0, size: 0 };
        proof {
            assert(0u64 >> 0u64 == 0) by (bit_vector);
            assert(r@ =~= Seq::<bool>::empty());
        }
        r
    }

    /// Appends one bit.
    pub fn push(&mut self, bit: bool)
        requires
            old(self).wf(),
            old(self)@.len() < usize::MAX - 63,
        ensures
            final(self).wf(),
            final(self)@ == old(self)@.push(bit),
    {
        let ghost prev = *self;
        let v: u64 = if bit {
            1
        } else {
            0
        };
        let s = self.filled as u64;
        self.accum = self.accum | (v << s);
        proof {
            let a = prev.accum;
            assert(((a | (v << s)) >> s) & 1 == v && (s + 1 < 64 ==> (a | (v << s)) >> ((s
                + 1) as u64) == 0)) by (bit_vector)
                requires
                    v <= 1 && s < 64 && a >> s == 0,
            ;
            assert forall|j: int| 0 <= j < s implies nth_bit(a | (v << s), j) == nth_bit(
                a,
                j,
            ) by {
                let ju = j as u64;
                assert(((a | (v << s)) >> ju) & 1 == (a >> ju) & 1) by (bit_vector)
                    requires
                        v <= 1 && ju < s && s < 64,
                ;
            }
            assert(word_bits(self.accum).take(s as int + 1) =~= word_bits(a).take(s as int).push(
                bit,
            ));
        }
        self.filled = self.filled + 1;
        self.size = self.size + 1;
        if self.filled == 64 {
            proof {
                lemma_words_bits_push(self.buffer@, self.accum);
                assert(word_bits(self.accum).take(64) =~= word_bits(self.accum));
            }
            self.buffer.push(self.accum);
            self.accum = 0;
            self.filled = 0;
            proof {
                assert(0u64 >> 0u64 == 0) by (bit_vector);
                assert(self@ =~= prev@.push(bit));
            }
        } else {
            proof {
                assert(self@ =~= prev@.push(bit));
            }
        }
    }

    /// Flushes the partial word and returns the finished bit vector.
    pub fn finish(self) -> (r: BitVector)
        requires
            self.wf(),
        ensures
            r.wf(),
            r@ == self@,
    {
        let Builder { mut buffer, accum, filled, size } = self;
        let ghost prev = buffer@;
        if filled != 0 {
            buffer.push(accum);
        }
        let r = BitVector { bits: size, buffer };
        proof {
            if filled != 0 {
                lemma_words_bits_push(prev, accum);
                assert(div_ceil_spec(size as int, 64) == prev.len() + 1) by (nonlinear_arith)
                    requires
                        size == 64 * prev.len() + filled && 0 < filled < 64,
                ;
                assert forall|i: int|
                    size <= i < 64 * r.buffer@.len() implies !words_bits(r.buffer@)[i] by {
                    assert(i / 64 == prev.len() && i % 64 == i - 64 * prev.len())
                        by (nonlinear_arith)
                        requires
                            64 * prev.len() <= i < 64 * (prev.len() + 1),
                    ;
                    let ju = (i - 64 * prev.len()) as u64;
                    let s = filled as u64;
                    assert((accum >> ju) & 1 == 0) by (bit_vector)
                        requires
                            accum >> s == 0 && s <= ju < 64,
                    ;
                }
                assert(r@ =~= self@);
            } else {
                assert(div_ceil_spec(size as int, 64) == prev.len()) by (nonlinear_arith)
                    requires
                        size == 64 * prev.len(),
                ;
                assert(r@ =~= self@);
            }
        }
        r
    }
}

} // verus!
