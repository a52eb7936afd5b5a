//! Dictionary capabilities: the traits through which every indexed
//! structure answers `get`, `rank` and `select`.
//!
//! Each trait carries a spec-level sequence that its query is measured
//! against; a type implementing several of these traits gives them all the
//! same sequence.  Positions are 0-based, `rank` counts a strict prefix,
//! and `select` follows the convention fixed in [`crate::bitseq::is_select_of`]:
//! `select(x, 0) == 0`, and for `n >= 1` the answer is one past the `n`-th
//! occurrence.

use crate::bitseq::{is_select_of, rank_of, word_bits};
use vstd::prelude::*;

verus! {

/// A finite collection with a well-formedness invariant and a length.
pub trait Collection {
    /// The structural invariant that queries rely on.
    spec fn valid(&self) -> bool;

    /// The length of the modelled sequence.
    spec fn seq_len(&self) -> nat;

    /// The number of elements held.
    fn len(&self) -> (r: usize)
        requires
            self.valid(),
        ensures
            r == self.seq_len(),
    ;
}

/// Retrieval by position, returning the element by value.
pub trait Access<T>: Collection {
    /// The sequence whose elements `get` returns.
    spec fn access_seq(&self) -> Seq<T>;

    /// The element at position `n`.
    fn get(&self, n: usize) -> (r: T)
        requires
            self.valid(),
            n < self.access_seq().len(),
        ensures
            r == self.access_seq()[n as int],
    ;
}

/// Counting a symbol in a prefix.
pub trait Rank<T>: Collection {
    /// The sequence whose prefixes `rank` counts over.
    spec fn rank_seq(&self) -> Seq<T>;

    /// The number of occurrences of `el` at positions `0 .. n`.
    fn rank(&self, el: T, n: usize) -> (r: usize)
        requires
            self.valid(),
            n <= self.rank_seq().len(),
        ensures
            r == rank_of(self.rank_seq(), el, n as int),
    ;
}

/// Locating the `n`-th occurrence of a symbol.
pub trait Select<T>: Collection {
    /// The sequence that `select` searches.
    spec fn select_seq(&self) -> Seq<T>;

    /// The smallest position `r` with `rank(el, r) == n`; `0` when `n == 0`.
    fn select(&self, el: T, n: usize) -> (r: usize)
        requires
            self.valid(),
            n as int <= rank_of(self.select_seq(), el, self.select_seq().len() as int),
        ensures
            is_select_of(self.select_seq(), el, n as int, r as int),
    ;
}

/// Rank over binary sequences, exposing both bit values at once.
pub trait BitRank: Collection {
    /// The bit sequence ranked over.
    spec fn bit_seq(&self) -> Seq<bool>;

    /// The number of zeros at positions `0 .. n`.
    fn rank0(&self, n: usize) -> (r: usize)
        requires
            self.valid(),
            n <= self.bit_seq().len(),
        ensures
            r == rank_of(self.bit_seq(), false, n as int),
    ;

    /// The number of ones at positions `0 .. n`.
    fn rank1(&self, n: usize) -> (r: usize)
        requires
            self.valid(),
            n <= self.bit_seq().len(),
        ensures
            r == rank_of(self.bit_seq(), true, n as int),
    ;
}

/// Select over binary sequences, one entry point per bit value.
pub trait BitSelect: Collection {
    /// The bit sequence searched.
    spec fn bit_select_seq(&self) -> Seq<bool>;

    /// `select` for the zero bit.
    fn select0(&self, n: usize) -> (r: usize)
        requires
            self.valid(),
            n as int <= rank_of(self.bit_select_seq(), false, self.bit_select_seq().len() as int),
        ensures
            is_select_of(self.bit_select_seq(), false, n as int, r as int),
    ;

    /// `select` for the one bit.
    fn select1(&self, n: usize) -> (r: usize)
        requires
            self.valid(),
            n as int <= rank_of(self.bit_select_seq(), true, self.bit_select_seq().len() as int),
        ensures
            is_select_of(self.bit_select_seq(), true, n as int, r as int),
    ;
}

/// Counting the set bits of a value.
pub trait PopCount {
    /// The bit sequence whose ones are counted.
    spec fn pop_seq(&self) -> Seq<bool>;

    /// The number of ones.
    fn pop_count(&self) -> (r: usize)
        ensures
            r == rank_of(self.pop_seq(), true, self.pop_seq().len() as int),
    ;
}

impl Collection for u64 {
    open spec fn valid(&self) -> bool {
        true
    }

    open spec fn seq_len(&self) -> nat {
        64
    }

    fn len(&self) -> (r: usize) {
        64
    }
}

impl Access<bool> for u64 {
    open spec fn access_seq(&self) -> Seq<bool> {
        word_bits(*self)
    }

    fn get(&self, n: usize) -> (r: bool) {
        (*self >> (n as u64)) & 1 == 1
    }
}

impl Rank<bool> for u64 {
    open spec fn rank_seq(&self) -> Seq<bool> {
        word_bits(*self)
    }

    fn rank(&self, el: bool, n: usize) -> (r: usize) {
        if el {
            self.rank1(n)
        } else {
            self.rank0(n)
        }
    }
}

impl BitRank for u64 {
    open spec fn bit_seq(&self) -> Seq<bool> {
        word_bits(*self)
    }

    fn rank0(&self, n: usize) -> (r: usize) {
        crate::broadword::rank0(*self, n)
    }

    fn rank1(&self, n: usize) -> (r: usize) {
        crate::broadword::rank1(*self, n)
    }
}

impl Select<bool> for u64 {
    open spec fn select_seq(&self) -> Seq<bool> {
        word_bits(*self)
    }

    fn select(&self, el: bool, n: usize) -> (r: usize) {
        crate::broadword::select_after(*self, el, n)
    }
}

impl PopCount for u64 {
    open spec fn pop_seq(&self) -> Seq<bool> {
        word_bits(*self)
    }

    fn pop_count(&self) -> (r: usize) {
        crate::broadword::rank1(*self, 64)
    }
}

impl Collection for Vec<u64> {
    open spec fn valid(&self) -> bool {
        true
    }

    open spec fn seq_len(&self) -> nat {
        self@.len()
    }

    fn len(&self) -> (r: usize) {
        self.len()
    }
}

impl Rank<u64> for Vec<u64> {
    open spec fn rank_seq(&self) -> Seq<u64> {
        self@
    }

    fn rank(&self, el: u64, n: usize) -> (r: usize) {
        let mut i: usize = 0;
        let mut count: usize = 0;
        while i < n
            invariant
                i <= n <= self@.len(),
                count == rank_of(self@, el, i as int),
                count <= i,
            decreases n - i,
        {
            if self[i] == el {
                count = count + 1;
            }
            i = i + 1;
        }
        count
    }
}

impl Select<u64> for Vec<u64> {
    open spec fn select_seq(&self) -> Seq<u64> {
        self@
    }

    fn select(&self, el: u64, n: usize) -> (r: usize) {
        if n == 0 {
            return 0;
        }
        let vlen = self.len();
        let mut i: usize = 0;
        let mut count: usize = 0;
        loop
            invariant
                vlen == self@.len(),
                i <= vlen,
                count == rank_of(self@, el, i as int),
                count < n,
                1 <= n,
                n as int <= rank_of(self@, el, self@.len() as int),
            decreases self@.len() - i,
        {
            proof {
                crate::bitseq::lemma_rank_position(
                    self@,
                    el,
                    i as int,
                    self@.len() as int,
                    n as int,
                );
            }
            if self[i] == el {
                if count + 1 == n {
                    return i + 1;
                }
                count = count + 1;
            }
            i = i + 1;
        }
    }
}

} // verus!
