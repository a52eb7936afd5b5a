//! Succinct indexable dictionaries.
//!
//! A bit vector of length `n` is stored packed into 64-bit broadwords and
//! answers three queries:
//!
//! - `get(i)`: the bit at position `i`;
//! - `rank(b, i)`: how many `b`-bits lie strictly before position `i`;
//! - `select(b, n)`: the smallest `i` with `rank(b, i) == n`, which for
//!   `n >= 1` is the position one past the `n`-th `b`-bit, and which is `0`
//!   by convention when `n == 0`.
//!
//! Two bit-vector implementations are provided: a plain one that scans words
//! ([`bit_vector::BitVector`]), and [`rank9::Rank9`], which keeps two levels
//! of packed counters so that `rank` reads a constant number of words and
//! `select` binary-searches the counters.  A [`wavelet::Wavelet`] tree lifts
//! the same three queries from bits to fixed-width symbols by recursively
//! splitting the symbol sequence on one bit per level.
//!
//! The abstract model of every structure is a sequence: `Seq<bool>` for bit
//! vectors and `Seq<u64>` for wavelet trees.  The spec functions that
//! contracts are written against live in [`bitseq`].

pub mod bitseq;
pub mod broadword;
pub mod dictionary;
pub mod utils;
pub mod bit_vector;
pub mod naive;
pub mod rank9;
pub mod bits;
pub mod tree;
pub mod wavelet;
