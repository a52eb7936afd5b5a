//! Iteration over the bits of a primitive, most significant bit first.
//!
//! The wavelet tree routes each symbol down its tree one bit per level,
//! starting at the symbol's top bit, so the order here is part of the
//! library's contract and must not change.

use crate::bitseq::nth_bit;
use vstd::prelude::*;

verus! {

/// A single-use source of the bits of a value, most significant first.
///
/// The view is the sequence of bits still to be produced: element 0 is the
/// highest remaining bit.
#[derive(Debug)]
pub struct BitIterator {
    /// How many low bits of `x` are still to be produced.
    bit: usize,
    /// The value being read.
    x: u64,
}

impl View for BitIterator {
    type V = Seq<bool>;

    closed spec fn view(&self) -> Seq<bool> {
        Seq::new(self.bit as nat, |j: int| nth_bit(self.x, self.bit - 1 - j))
    }
}

impl BitIterator {
    /// All 64 bits of a broadword, most significant first.
    pub fn new(x: u64) -> (r: BitIterator)
        ensures
            r.wf(),
            r@.len() == 64,
            forall|j: int| 0 <= j < 64 ==> r@[j] == nth_bit(x, 63 - j),
    {
        BitIterator { bit: 64, x }
    }

    /// Only the low `bits` bits of `x`, most significant of those first.
    pub fn with_width(bits: usize, x: u64) -> (r: BitIterator)
        requires
            bits <= 64,
        ensures
            r.wf(),
            r@.len() == bits,
            forall|j: int| 0 <= j < bits ==> r@[j] == nth_bit(x, bits - 1 - j),
    {
        BitIterator { bit: bits, x }
    }

    /// The next bit, or `None` once all bits have been produced.
    pub fn next(&mut self) -> (r: Option<bool>)
        requires
            old(self).wf(),
        ensures
            final(self).wf(),
            old(self)@.len() == 0 ==> r is None && final(self)@ == old(self)@,
            old(self)@.len() > 0 ==> r == Some(old(self)@[0]) && final(self)@ == old(
                self,
            )@.drop_first(),
    {
        if self.bit == 0 {
            None
        } else {
            self.bit = self.bit - 1;
            let r = (self.x >> (self.bit as u64)) & 1 == 1;
            proof {
                assert(self@ =~= old(self)@.drop_first());
            }
            Some(r)
        }
    }

    /// The iterator never holds more than a broadword's worth of bits.
    pub closed spec fn wf(&self) -> bool {
        self.bit <= 64
    }
}

/// Values whose bits can be walked most-significant-first.
pub trait BitIter {
    /// The width of the value in bits.
    spec fn bit_width(self) -> nat;

    /// The value, widened to a broadword.
    spec fn as_word(self) -> u64;

    /// An iterator over the value's bits, most significant first.
    fn bit_iter(self) -> (r: BitIterator)
        ensures
            r.wf(),
            r@.len() == self.bit_width(),
            forall|j: int|
                0 <= j < self.bit_width() ==> r@[j] == nth_bit(
                    self.as_word(),
                    self.bit_width() - 1 - j,
                ),
    ;
}

impl BitIter for u64 {
    open spec fn bit_width(self) -> nat {
        64
    }

    open spec fn as_word(self) -> u64 {
        self
    }

    fn bit_iter(self) -> (r: BitIterator) {
        BitIterator::new(self)
    }
}

impl BitIter for u32 {
    open spec fn bit_width(self) -> nat {
        32
    }

    open spec fn as_word(self) -> u64 {
        self as u64
    }

    fn bit_iter(self) -> (r: BitIterator) {
        BitIterator::with_width(32, self as u64)
    }
}

impl BitIter for u16 {
    open spec fn bit_width(self) -> nat {
        16
    }

    open spec fn as_word(self) -> u64 {
        self as u64
    }

    fn bit_iter(self) -> (r: BitIterator) {
        BitIterator::with_width(16, self as u64)
    }
}

impl BitIter for u8 {
    open spec fn bit_width(self) -> nat {
        8
    }

    open spec fn as_word(self) -> u64 {
        self as u64
    }

    fn bit_iter(self) -> (r: BitIterator) {
        BitIterator::with_width(8, self as u64)
    }
}

} // verus!
