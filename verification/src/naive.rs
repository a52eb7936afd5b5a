//! Exceedingly naive dictionary operations, written to test against.
//!
//! Both functions scan the sequence one position at a time through the
//! [`Access`] capability, so they work for any dictionary and serve as the
//! oracle that the indexed implementations are cross-checked against.

use crate::bitseq::{is_select_of, rank_of};
use crate::dictionary::Access;
use vstd::prelude::*;

verus! {

/// The number of occurrences of `bit` at positions `0 .. n`, by scanning.
pub fn rank<D: Access<bool>>(v: &D, bit: bool, n: usize) -> (r: usize)
    requires
        v.valid(),
        n <= v.access_seq().len(),
    ensures
        r == rank_of(v.access_seq(), bit, n as int),
{
    let mut i: usize = 0;
    let mut count: usize = 0;
    while i < n
        invariant
            v.valid(),
            i <= n <= v.access_seq().len(),
            count == rank_of(v.access_seq(), bit, i as int),
            count <= i,
        decreases n - i,
    {
        if v.get(i) == bit {
            count = count + 1;
        }
        i = i + 1;
    }
    count
}

/// The position one past the `n`-th occurrence of `bit`, by scanning;
/// `Some(0)` when `n == 0`, `None` when fewer than `n` such bits exist.
pub fn select<D: Access<bool>>(v: &D, bit: bool, n: usize) -> (r: Option<usize>)
    requires
        v.valid(),
        v.access_seq().len() == v.seq_len(),
    ensures
        match r {
            Some(p) => is_select_of(v.access_seq(), bit, n as int, p as int),
            None => rank_of(v.access_seq(), bit, v.access_seq().len() as int) < n,
        },
{
    if n == 0 {
        return Some(0);
    }
    let len = v.len();
    let mut i: usize = 0;
    let mut count: usize = 0;
    while i < len
        invariant
            v.valid(),
            len == v.access_seq().len(),
            i <= len,
            count == rank_of(v.access_seq(), bit, i as int),
            count < n,
            1 <= n,
        decreases len - i,
    {
        if v.get(i) == bit {
            if count + 1 == n {
                return Some(i + 1);
            }
            count = count + 1;
        }
        i = i + 1;
    }
    None
}

} // verus!
