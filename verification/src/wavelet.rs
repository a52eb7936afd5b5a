//! Wavelet trees: rank, select and access over fixed-width symbols.
//!
//! A sequence of `width`-bit symbols is decomposed one bit plane per
//! level, most significant bit first.  The root holds the top bits of all
//! symbols as a [`BitVector`]; symbols whose top bit is 0 continue, in
//! order, into the left subtree, the others into the right, and so on for
//! `width` levels.  A query walks the tree following the bits of its
//! symbol, translating positions with bit-vector `rank`, and `select`
//! translates a position back up with bit-vector `select` at each level.

use crate::bit_vector::BitVector;
use crate::bitseq::{
    is_select_of, lemma_rank_agree, lemma_rank_all_match, lemma_rank_bounds, lemma_rank_constant,
    lemma_rank_monotone, nth_bit, rank_of,
};
use crate::dictionary::{Access, BitRank, Collection, Rank, Select};
use crate::tree::Tree;
use vstd::prelude::*;

verus! {

/// Bit plane `k` of a symbol sequence: the `k`-th bit of every symbol.
pub open spec fn plane(s: Seq<u64>, k: int) -> Seq<bool> {
    Seq::new(s.len(), |i: int| nth_bit(s[i], k))
}

/// The subsequence of `s`, in order, of symbols whose bit `k` equals `b`.
pub open spec fn route(s: Seq<u64>, k: int, b: bool) -> Seq<u64>
    decreases s.len(),
{
    if s.len() == 0 {
        Seq::empty()
    } else {
        let pre = route(s.drop_last(), k, b);
        if nth_bit(s.last(), k) == b {
            pre.push(s.last())
        } else {
            pre
        }
    }
}

/// `e` occupies only its low `w` bits.
pub open spec fn fits(e: u64, w: int) -> bool {
    if w >= 64 {
        true
    } else {
        e >> (w as u64) == 0
    }
}

/// `e` and `x` agree on bits `w` and above.
pub open spec fn high_eq(e: u64, x: u64, w: int) -> bool {
    if w >= 64 {
        true
    } else {
        e >> (w as u64) == x >> (w as u64)
    }
}

/// `a` and `e` agree on bits below `w`.
pub open spec fn low_eq(a: u64, e: u64, w: int) -> bool {
    forall|k: int| 0 <= k < w ==> nth_bit(a, k) == nth_bit(e, k)
}

/// The bit planes of a longer sequence extend those of its prefix.
proof fn lemma_plane_prefix(s: Seq<u64>, k: int, i: int, b: bool)
    requires
        0 <= i <= s.len() - 1,
    ensures
        rank_of(plane(s, k), b, i) == rank_of(plane(s.drop_last(), k), b, i),
{
    lemma_rank_agree(plane(s, k), plane(s.drop_last(), k), b, i);
}

/// The routed subsequence holds exactly as many symbols as the plane has
/// `b`-bits.
proof fn lemma_route_len(s: Seq<u64>, k: int, b: bool)
    ensures
        route(s, k, b).len() == rank_of(plane(s, k), b, s.len() as int),
    decreases s.len(),
{
    if s.len() > 0 {
        lemma_route_len(s.drop_last(), k, b);
        lemma_plane_prefix(s, k, s.len() - 1, b);
        assert(plane(s, k)[s.len() - 1] == nth_bit(s.last(), k));
    }
}

/// Every routed symbol has bit `k` equal to `b`.
proof fn lemma_route_bits(s: Seq<u64>, k: int, b: bool)
    ensures
        forall|j: int|
            0 <= j < route(s, k, b).len() ==> nth_bit(#[trigger] route(s, k, b)[j], k) == b,
    decreases s.len(),
{
    if s.len() > 0 {
        lemma_route_bits(s.drop_last(), k, b);
        let r = route(s, k, b);
        let pre = route(s.drop_last(), k, b);
        assert forall|j: int| 0 <= j < r.len() implies nth_bit(#[trigger] r[j], k) == b by {
            if nth_bit(s.last(), k) == b {
                assert(r == pre.push(s.last()));
                if j < pre.len() {
                    assert(r[j] == pre[j]);
                } else {
                    assert(r[j] == s.last());
                }
            } else {
                assert(r == pre);
            }
        }
    }
}

/// Routing keeps a property shared by all symbols of the sequence.
proof fn lemma_route_high_eq(s: Seq<u64>, k: int, b: bool, x: u64, w: int)
    requires
        forall|i: int| 0 <= i < s.len() ==> high_eq(#[trigger] s[i], x, w),
    ensures
        forall|j: int|
            0 <= j < route(s, k, b).len() ==> high_eq(#[trigger] route(s, k, b)[j], x, w),
    decreases s.len(),
{
    if s.len() > 0 {
        assert forall|i: int| 0 <= i < s.drop_last().len() implies high_eq(
            #[trigger] s.drop_last()[i],
            x,
            w,
        ) by {
            assert(s.drop_last()[i] == s[i]);
        }
        lemma_route_high_eq(s.drop_last(), k, b, x, w);
        let r = route(s, k, b);
        let pre = route(s.drop_last(), k, b);
        assert forall|j: int| 0 <= j < r.len() implies high_eq(#[trigger] r[j], x, w) by {
            if nth_bit(s.last(), k) == b {
                assert(r == pre.push(s.last()));
                if j < pre.len() {
                    assert(r[j] == pre[j]);
                } else {
                    assert(r[j] == s[s.len() - 1]);
                }
            } else {
                assert(r == pre);
            }
        }
    }
}

/// A symbol whose bit `k` is `b` lands in the routed subsequence at the
/// index given by the plane's rank, unchanged.
proof fn lemma_route_index(s: Seq<u64>, k: int, b: bool, i: int)
    requires
        0 <= i < s.len(),
        nth_bit(s[i], k) == b,
    ensures
        0 <= rank_of(plane(s, k), b, i) < route(s, k, b).len(),
        route(s, k, b)[rank_of(plane(s, k), b, i)] == s[i],
    decreases s.len(),
{
    lemma_rank_bounds(plane(s, k), b, i);
    lemma_route_len(s, k, b);
    if i == s.len() - 1 {
        lemma_route_len(s.drop_last(), k, b);
        lemma_plane_prefix(s, k, i, b);
        assert(s.last() == s[i]);
    } else {
        assert(s.drop_last()[i] == s[i]);
        lemma_route_index(s.drop_last(), k, b, i);
        lemma_plane_prefix(s, k, i, b);
        // The route of the full sequence extends the route of the prefix.
        lemma_route_len(s.drop_last(), k, b);
        assert(plane(s, k)[s.len() - 1] == nth_bit(s.last(), k));
        lemma_plane_prefix(s, k, s.len() - 1, b);
        lemma_rank_monotone(plane(s.drop_last(), k), b, i + 1, s.len() - 1);
        assert(rank_of(plane(s.drop_last(), k), b, i + 1) == rank_of(plane(s.drop_last(), k), b, i)
            + 1);
    }
}

/// Counting a symbol in a prefix of `s` equals counting it in the routed
/// subsequence up to the corresponding routed position, provided the
/// symbol itself routes to side `b`.
proof fn lemma_route_rank(s: Seq<u64>, k: int, b: bool, x: u64, i: int)
    requires
        nth_bit(x, k) == b,
        0 <= i <= s.len(),
    ensures
        rank_of(s, x, i) == rank_of(route(s, k, b), x, rank_of(plane(s, k), b, i)),
    decreases s.len(),
{
    if s.len() == 0 {
    } else if i == s.len() {
        let dl = s.drop_last();
        lemma_route_rank(dl, k, b, x, i - 1);
        lemma_rank_agree(s, dl, x, i - 1);
        lemma_plane_prefix(s, k, i - 1, b);
        lemma_route_len(dl, k, b);
        lemma_rank_bounds(plane(dl, k), b, i - 1);
        assert(plane(s, k)[i - 1] == nth_bit(s.last(), k));
        if nth_bit(s.last(), k) == b {
            // The last symbol is routed: both sides gain one position.
            let pre = route(dl, k, b);
            lemma_rank_agree(route(s, k, b), pre, x, rank_of(plane(dl, k), b, i - 1));
            assert(rank_of(route(s, k, b), x, rank_of(plane(s, k), b, i)) == rank_of(
                pre,
                x,
                rank_of(plane(dl, k), b, i - 1),
            ) + if s.last() == x {
                1int
            } else {
                0int
            });
        } else {
            // The last symbol is not routed, and it cannot equal x since
            // their bits at k differ.
            assert(s.last() != x);
            lemma_rank_agree(route(s, k, b), route(dl, k, b), x, rank_of(plane(dl, k), b, i - 1));
        }
    } else {
        let dl = s.drop_last();
        lemma_route_rank(dl, k, b, x, i);
        lemma_rank_agree(s, dl, x, i);
        lemma_plane_prefix(s, k, i, b);
        lemma_route_len(dl, k, b);
        lemma_rank_bounds(plane(dl, k), b, i);
        lemma_rank_monotone(plane(dl, k), b, i, dl.len() as int);
        if nth_bit(s.last(), k) == b {
            lemma_rank_agree(route(s, k, b), route(dl, k, b), x, rank_of(plane(dl, k), b, i));
        } else {
            lemma_rank_agree(route(s, k, b), route(dl, k, b), x, rank_of(plane(dl, k), b, i));
        }
    }
}

/// Appending a symbol appends its bit to every plane it reaches.
proof fn lemma_plane_push(s: Seq<u64>, k: int, e: u64)
    ensures
        plane(s.push(e), k) == plane(s, k).push(nth_bit(e, k)),
{
    assert(plane(s.push(e), k) =~= plane(s, k).push(nth_bit(e, k)));
}

/// Appending a symbol extends exactly the routed side its bit selects.
proof fn lemma_route_push(s: Seq<u64>, k: int, b: bool, e: u64)
    ensures
        route(s.push(e), k, b) == if nth_bit(e, k) == b {
            route(s, k, b).push(e)
        } else {
            route(s, k, b)
        },
{
    assert(s.push(e).drop_last() =~= s);
    assert(s.push(e).last() == e);
}

/// Lowering the boundary of agreement by one bit that is known equal.
proof fn lemma_high_eq_step(e: u64, x: u64, w: int)
    requires
        1 <= w <= 64,
        high_eq(e, x, w),
        nth_bit(e, w - 1) == nth_bit(x, w - 1),
    ensures
        high_eq(e, x, w - 1),
{
    let s = (w - 1) as u64;
    if w == 64 {
        assert(e >> s == x >> s) by (bit_vector)
            requires
                s == 63 && ((e >> s) & 1 == 1) == ((x >> s) & 1 == 1),
        ;
    } else {
        let wu = w as u64;
        assert(e >> s == x >> s) by (bit_vector)
            requires
                1 <= wu <= 63 && s == wu - 1 && e >> wu == x >> wu && ((e >> s) & 1 == 1) == ((x
                    >> s) & 1 == 1),
        ;
    }
}

/// Two words that agree on every bit from `j` up agree above `j`.
proof fn lemma_high_eq_from_bits(a: u64, e: u64, j: int)
    requires
        0 <= j <= 64,
        forall|k: int| j <= k < 64 ==> nth_bit(a, k) == nth_bit(e, k),
    ensures
        high_eq(a, e, j),
    decreases 64 - j,
{
    if j < 64 {
        lemma_high_eq_from_bits(a, e, j + 1);
        lemma_high_eq_step(a, e, j + 1);
    }
}

/// A word that fits in `w` bits has nothing above them.
proof fn lemma_fits_bit(e: u64, w: int, k: int)
    requires
        0 <= w <= k < 64,
        fits(e, w),
    ensures
        !nth_bit(e, k),
{
    let wu = w as u64;
    let ku = k as u64;
    assert((e >> ku) & 1 == 0) by (bit_vector)
        requires
            e >> wu == 0 && wu <= ku < 64,
    ;
}

/// Two words that fit in `w` bits and agree below `w` are equal.
proof fn lemma_fits_low_eq(a: u64, e: u64, w: int)
    requires
        0 <= w <= 64,
        fits(a, w),
        fits(e, w),
        low_eq(a, e, w),
    ensures
        a == e,
{
    assert forall|k: int| 0 <= k < 64 implies nth_bit(a, k) == nth_bit(e, k) by {
        if k >= w {
            lemma_fits_bit(a, w, k);
            lemma_fits_bit(e, w, k);
        }
    }
    lemma_high_eq_from_bits(a, e, 0);
    assert(a >> 0u64 == a && e >> 0u64 == e) by (bit_vector);
}

/// Words that agree on all bits are equal.
proof fn lemma_high_eq_zero(e: u64, x: u64)
    requires
        high_eq(e, x, 0),
    ensures
        e == x,
{
    assert(e >> 0u64 == e && x >> 0u64 == x) by (bit_vector);
}

/// Setting bit `s` of a word that is clear from `s` up: the new bit reads
/// back, lower bits are untouched, and the result fits in `s + 1` bits.
proof fn lemma_sym_insert(r2: u64, v: u64, s: u64)
    requires
        v <= 1,
        s <= 63,
        r2 >> s == 0,
    ensures
        nth_bit(r2 | (v << s), s as int) == (v == 1),
        forall|j: int| 0 <= j < s ==> #[trigger] nth_bit(r2 | (v << s), j) == nth_bit(r2, j),
        s < 63 ==> (r2 | (v << s)) >> ((s + 1) as u64) == 0,
{
    assert(((r2 | (v << s)) >> s) & 1 == v && (s < 63 ==> (r2 | (v << s)) >> ((s + 1) as u64)
        == 0)) by (bit_vector)
        requires
            v <= 1 && s <= 63 && r2 >> s == 0,
    ;
    assert forall|j: int| 0 <= j < s implies #[trigger] nth_bit(r2 | (v << s), j) == nth_bit(
        r2,
        j,
    ) by {
        let ju = j as u64;
        assert(((r2 | (v << s)) >> ju) & 1 == (r2 >> ju) & 1) by (bit_vector)
            requires
                v <= 1 && ju < s && s <= 63,
        ;
    }
}

/// The tree of bit vectors faithfully decomposes the symbol sequence:
/// each node holds one bit plane, and each child holds the symbols routed
/// to its side.  A missing child means no symbol was routed there.
pub open spec fn tree_models(t: Tree<BitVector>, width: nat, syms: Seq<u64>) -> bool
    decreases width,
{
    if width == 0 {
        true
    } else {
        let k = width as int - 1;
        &&& t.value.wf()
        &&& t.value@ == plane(syms, k)
        &&& match t.left {
            None => route(syms, k, false).len() == 0,
            Some(c) => tree_models(*c, (width - 1) as nat, route(syms, k, false)),
        }
        &&& match t.right {
            None => route(syms, k, true).len() == 0,
            Some(c) => tree_models(*c, (width - 1) as nat, route(syms, k, true)),
        }
    }
}

/// Reads position `i` of the modelled sequence, one bit plane per level.
fn access_rec(t: &Tree<BitVector>, width: usize, i: usize, Ghost(syms): Ghost<Seq<u64>>) -> (r:
    u64)
    requires
        tree_models(*t, width as nat, syms),
        width <= 64,
        i < syms.len(),
    ensures
        fits(r, width as int),
        low_eq(r, syms[i as int], width as int),
    decreases width,
{
    if width == 0 {
        proof {
            assert(0u64 >> 0u64 == 0) by (bit_vector);
        }
        return 0;
    }
    let ghost k = width as int - 1;
    let bit = t.value.get(i);
    let i2 = if bit {
        t.value.rank1(i)
    } else {
        t.value.rank0(i)
    };
    proof {
        assert(plane(syms, k)[i as int] == nth_bit(syms[i as int], k));
        lemma_route_index(syms, k, bit, i as int);
    }
    let ghost csyms = route(syms, k, bit);
    let child = if bit {
        &t.right
    } else {
        &t.left
    };
    match child {
        Some(c) => {
            let r2 = access_rec(c, width - 1, i2, Ghost(csyms));
            let v: u64 = if bit {
                1
            } else {
                0
            };
            let s = (width - 1) as u64;
            let r = r2 | (v << s);
            proof {
                lemma_sym_insert(r2, v, s);
                assert(csyms[i2 as int] == syms[i as int]);
                assert forall|j: int|
                    0 <= j < width as int implies nth_bit(r, j) == nth_bit(
                    syms[i as int],
                    j,
                ) by {
                    if j < k {
                        assert(nth_bit(r, j) == nth_bit(r2, j));
                    } else {
                        assert(nth_bit(r, k) == (v == 1));
                    }
                }
                if width < 64 {
                    assert(fits(r, width as int));
                }
            }
            r
        },
        None => {
            // Unreachable: position `i` routes to this side, so the child
            // holds at least one symbol.
            proof {
                assert(i2 < csyms.len());
            }
            0
        },
    }
}

/// Counts the symbol `x` before position `i`, descending along the bits
/// of `x`; every symbol of the node's sequence agrees with `x` above the
/// current width.
fn rank_rec(
    t: &Tree<BitVector>,
    width: usize,
    x: u64,
    i: usize,
    Ghost(syms): Ghost<Seq<u64>>,
) -> (r: usize)
    requires
        tree_models(*t, width as nat, syms),
        width <= 64,
        i <= syms.len(),
        forall|j: int| 0 <= j < syms.len() ==> high_eq(#[trigger] syms[j], x, width as int),
    ensures
        r == rank_of(syms, x, i as int),
    decreases width,
{
    if width == 0 {
        proof {
            assert forall|j: int| 0 <= j < i as int implies syms[j] == x by {
                lemma_high_eq_zero(syms[j], x);
            }
            lemma_rank_all_match(syms, x, i as int);
        }
        return i;
    }
    let ghost k = width as int - 1;
    let bit = (x >> ((width - 1) as u64)) & 1 == 1;
    let i2 = if bit {
        t.value.rank1(i)
    } else {
        t.value.rank0(i)
    };
    let ghost csyms = route(syms, k, bit);
    proof {
        lemma_route_rank(syms, k, bit, x, i as int);
        lemma_route_len(syms, k, bit);
        lemma_rank_monotone(plane(syms, k), bit, i as int, syms.len() as int);
        lemma_rank_bounds(plane(syms, k), bit, i as int);
    }
    let child = if bit {
        &t.right
    } else {
        &t.left
    };
    match child {
        Some(c) => {
            proof {
                lemma_route_bits(syms, k, bit);
                lemma_route_high_eq(syms, k, bit, x, width as int);
                assert forall|j: int| 0 <= j < csyms.len() implies high_eq(
                    #[trigger] csyms[j],
                    x,
                    k,
                ) by {
                    lemma_high_eq_step(csyms[j], x, width as int);
                }
            }
            rank_rec(c, width - 1, x, i2, Ghost(csyms))
        },
        None => {
            // No symbol was ever routed to x's side, so x does not occur.
            proof {
                assert(rank_of(csyms, x, i2 as int) == 0);
            }
            0
        },
    }
}

/// Tests whether position `i` holds the symbol `x` on the bits below
/// `width`, stopping at the first level where the bits differ.
fn symbol_eq_rec(
    t: &Tree<BitVector>,
    width: usize,
    x: u64,
    i: usize,
    Ghost(syms): Ghost<Seq<u64>>,
) -> (r: bool)
    requires
        tree_models(*t, width as nat, syms),
        width <= 64,
        i < syms.len(),
    ensures
        r == low_eq(syms[i as int], x, width as int),
    decreases width,
{
    if width == 0 {
        return true;
    }
    let ghost k = width as int - 1;
    let bit_x = (x >> ((width - 1) as u64)) & 1 == 1;
    let bit_s = t.value.get(i);
    proof {
        assert(plane(syms, k)[i as int] == nth_bit(syms[i as int], k));
    }
    if bit_x != bit_s {
        proof {
            assert(!low_eq(syms[i as int], x, width as int));
        }
        return false;
    }
    let i2 = if bit_s {
        t.value.rank1(i)
    } else {
        t.value.rank0(i)
    };
    proof {
        lemma_route_index(syms, k, bit_s, i as int);
    }
    let ghost csyms = route(syms, k, bit_s);
    let child = if bit_s {
        &t.right
    } else {
        &t.left
    };
    match child {
        Some(c) => {
            let r2 = symbol_eq_rec(c, width - 1, x, i2, Ghost(csyms));
            proof {
                assert(csyms[i2 as int] == syms[i as int]);
                if r2 {
                    assert forall|j: int|
                        0 <= j < width as int implies nth_bit(syms[i as int], j) == nth_bit(
                        x,
                        j,
                    ) by {
                        if j < k {
                            assert(nth_bit(csyms[i2 as int], j) == nth_bit(x, j));
                        }
                    }
                } else {
                    assert(!low_eq(csyms[i2 as int], x, k));
                    let j0 = choose|j: int| 0 <= j < k && nth_bit(csyms[i2 as int], j) != nth_bit(
                        x,
                        j,
                    );
                    assert(nth_bit(syms[i as int], j0) != nth_bit(x, j0));
                }
            }
            r2
        },
        None => {
            proof {
                assert(i2 < csyms.len());
            }
            false
        },
    }
}

/// Finds the position one past the `n`-th occurrence of `x`, descending
/// to `x`'s leaf and translating the count back up with bit-vector
/// select at each level.
fn select_rec(
    t: &Tree<BitVector>,
    width: usize,
    x: u64,
    n: usize,
    Ghost(syms): Ghost<Seq<u64>>,
) -> (r: usize)
    requires
        tree_models(*t, width as nat, syms),
        width <= 64,
        1 <= n,
        n as int <= rank_of(syms, x, syms.len() as int),
        forall|j: int| 0 <= j < syms.len() ==> high_eq(#[trigger] syms[j], x, width as int),
    ensures
        is_select_of(syms, x, n as int, r as int),
    decreases width,
{
    if width == 0 {
        proof {
            assert forall|j: int| 0 <= j < syms.len() implies syms[j] == x by {
                lemma_high_eq_zero(syms[j], x);
            }
            lemma_rank_all_match(syms, x, syms.len() as int);
            lemma_rank_all_match(syms, x, n as int);
        }
        return n;
    }
    let ghost k = width as int - 1;
    let bit = (x >> ((width - 1) as u64)) & 1 == 1;
    let ghost csyms = route(syms, k, bit);
    proof {
        lemma_route_rank(syms, k, bit, x, syms.len() as int);
        lemma_route_len(syms, k, bit);
    }
    let child = if bit {
        &t.right
    } else {
        &t.left
    };
    match child {
        Some(c) => {
            proof {
                lemma_route_bits(syms, k, bit);
                lemma_route_high_eq(syms, k, bit, x, width as int);
                assert forall|j: int| 0 <= j < csyms.len() implies high_eq(
                    #[trigger] csyms[j],
                    x,
                    k,
                ) by {
                    lemma_high_eq_step(csyms[j], x, width as int);
                }
            }
            let r2 = select_rec(c, width - 1, x, n, Ghost(csyms));
            proof {
                lemma_rank_bounds(csyms, x, r2 as int);
            }
            let r = t.value.select(bit, r2);
            proof {
                // The answer's own position holds bit `bit`, and routing
                // it down lands exactly on the child's answer.
                assert(plane(syms, k)[r - 1] == nth_bit(syms[r - 1], k));
                lemma_route_index(syms, k, bit, r as int - 1);
                assert(rank_of(plane(syms, k), bit, r as int - 1) == r2 - 1);
                assert(csyms[r2 - 1] == syms[r as int - 1]);
                lemma_route_rank(syms, k, bit, x, r as int);
                assert(rank_of(plane(syms, k), bit, r as int) == r2);
            }
            r
        },
        None => {
            // Unreachable: x occurs, so its side holds a symbol.
            proof {
                assert(rank_of(csyms, x, rank_of(plane(syms, k), bit, syms.len() as int)) == 0);
            }
            0
        },
    }
}

/// A wavelet tree over symbols of `width` bits.
pub struct Wavelet {
    tree: Tree<BitVector>,
    width: usize,
    count: usize,
    /// The symbol sequence, for specification only.
    syms: Ghost<Seq<u64>>,
}

impl View for Wavelet {
    type V = Seq<u64>;

    closed spec fn view(&self) -> Seq<u64> {
        self.syms@
    }
}

impl Wavelet {
    /// The structural invariant: the tree decomposes the sequence and
    /// every stored symbol fits the width.
    pub closed spec fn wf(&self) -> bool {
        &&& tree_models(self.tree, self.width as nat, self.syms@)
        &&& 1 <= self.width <= 64
        &&& self.count == self.syms@.len()
        &&& forall|j: int|
            0 <= j < self.syms@.len() ==> fits(#[trigger] self.syms@[j], self.width as int)
    }

    /// The symbol width in bits.
    pub closed spec fn width_spec(&self) -> nat {
        self.width as nat
    }

    /// The symbol width in bits.
    pub fn width(&self) -> (r: usize)
        ensures
            r == self.width_spec(),
    {
        self.width
    }

    /// Whether `sym` fits in the tree's symbol width.
    fn sym_fits(&self, sym: u64) -> (r: bool)
        requires
            self.wf(),
        ensures
            r == fits(sym, self.width_spec() as int),
    {
        self.width >= 64 || (sym >> (self.width as u64)) == 0
    }

    /// A symbol too wide for the tree occurs nowhere in it.
    proof fn lemma_absent(&self, sym: u64, i: int)
        requires
            self.wf(),
            !fits(sym, self.width as int),
            0 <= i <= self.syms@.len(),
        ensures
            rank_of(self.syms@, sym, i) == 0,
    {
        assert forall|j: int| 0 <= j < i implies self.syms@[j] != sym by {
            assert(fits(self.syms@[j], self.width as int));
        }
        lemma_rank_constant(self.syms@, sym, 0, i);
    }

    /// Symbols that fit the width agree with any fitting symbol above it.
    proof fn lemma_syms_high_eq(&self, sym: u64)
        requires
            self.wf(),
            fits(sym, self.width as int),
        ensures
            forall|j: int|
                0 <= j < self.syms@.len() ==> high_eq(#[trigger] self.syms@[j], sym, self.width as int),
    {
    }

    /// The symbol at position `i`.
    pub fn access(&self, i: usize) -> (r: u64)
        requires
            self.wf(),
            i < self@.len(),
        ensures
            r == self@[i as int],
    {
        let r = access_rec(&self.tree, self.width, i, Ghost(self.syms@));
        proof {
            lemma_fits_low_eq(r, self.syms@[i as int], self.width as int);
        }
        r
    }

    /// Whether the symbol at position `i` is `sym`, checked one bit per
    /// level without rebuilding the symbol.
    pub fn symbol_eq(&self, sym: u64, i: usize) -> (r: bool)
        requires
            self.wf(),
            i < self@.len(),
        ensures
            r == (self@[i as int] == sym),
    {
        if !self.sym_fits(sym) {
            proof {
                assert(fits(self.syms@[i as int], self.width as int));
            }
            return false;
        }
        let r = symbol_eq_rec(&self.tree, self.width, sym, i, Ghost(self.syms@));
        proof {
            if r {
                lemma_fits_low_eq(self.syms@[i as int], sym, self.width as int);
            } else {
                assert(self.syms@[i as int] != sym);
            }
        }
        r
    }
}

impl Collection for Wavelet {
    open spec fn valid(&self) -> bool {
        self.wf()
    }

    open spec fn seq_len(&self) -> nat {
        self@.len()
    }

    fn len(&self) -> (r: usize) {
        self.count
    }
}

impl Access<u64> for Wavelet {
    open spec fn access_seq(&self) -> Seq<u64> {
        self@
    }

    fn get(&self, n: usize) -> (r: u64) {
        self.access(n)
    }
}

impl Rank<u64> for Wavelet {
    open spec fn rank_seq(&self) -> Seq<u64> {
        self@
    }

    fn rank(&self, el: u64, n: usize) -> (r: usize) {
        if !self.sym_fits(el) {
            proof {
                self.lemma_absent(el, n as int);
            }
            return 0;
        }
        proof {
            self.lemma_syms_high_eq(el);
        }
        rank_rec(&self.tree, self.width, el, n, Ghost(self.syms@))
    }
}

impl Select<u64> for Wavelet {
    open spec fn select_seq(&self) -> Seq<u64> {
        self@
    }

    fn select(&self, el: u64, n: usize) -> (r: usize) {
        if !self.sym_fits(el) {
            proof {
                self.lemma_absent(el, self.syms@.len() as int);
            }
            return 0;
        }
        if n == 0 {
            return 0;
        }
        proof {
            self.lemma_syms_high_eq(el);
        }
        select_rec(&self.tree, self.width, el, n, Ghost(self.syms@))
    }
}

/// The tree of bit-vector builders faithfully decomposes the symbols
/// pushed so far, in the same way a finished tree models its sequence.
pub open spec fn build_models(
    t: Tree<crate::bit_vector::Builder>,
    width: nat,
    syms: Seq<u64>,
) -> bool
    decreases width,
{
    if width == 0 {
        true
    } else {
        let k = width as int - 1;
        &&& t.value.wf()
        &&& t.value@ == plane(syms, k)
        &&& match t.left {
            None => route(syms, k, false).len() == 0,
            Some(c) => build_models(*c, (width - 1) as nat, route(syms, k, false)),
        }
        &&& match t.right {
            None => route(syms, k, true).len() == 0,
            Some(c) => build_models(*c, (width - 1) as nat, route(syms, k, true)),
        }
    }
}

/// Routes one symbol down the builder tree, pushing one of its bits into
/// every node it passes and creating children on first visit.
fn push_rec(
    t: Tree<crate::bit_vector::Builder>,
    width: usize,
    sym: u64,
    Ghost(syms): Ghost<Seq<u64>>,
) -> (r: Tree<crate::bit_vector::Builder>)
    requires
        build_models(t, width as nat, syms),
        width <= 64,
        syms.len() < usize::MAX - 64,
    ensures
        build_models(r, width as nat, syms.push(sym)),
    decreases width,
{
    if width == 0 {
        return t;
    }
    let ghost k = width as int - 1;
    let bit = (sym >> ((width - 1) as u64)) & 1 == 1;
    let Tree { mut value, left, right } = t;
    value.push(bit);
    proof {
        lemma_plane_push(syms, k, sym);
        lemma_route_push(syms, k, false, sym);
        lemma_route_push(syms, k, true, sym);
        lemma_route_len(syms, k, bit);
        lemma_rank_bounds(plane(syms, k), bit, syms.len() as int);
    }
    let ghost csyms = route(syms, k, bit);
    let r = if bit {
        let sub = unwrap_or_leaf(right, Ghost(csyms), Ghost((width - 1) as nat));
        let sub2 = push_rec(sub, width - 1, sym, Ghost(csyms));
        Tree { value, left, right: Some(Box::new(sub2)) }
    } else {
        let sub = unwrap_or_leaf(left, Ghost(csyms), Ghost((width - 1) as nat));
        let sub2 = push_rec(sub, width - 1, sym, Ghost(csyms));
        Tree { value, left: Some(Box::new(sub2)), right }
    };
    proof {
        lemma_route_len(syms, k, !bit);
    }
    r
}

/// The child a symbol steps into, created fresh on the first visit.
fn unwrap_or_leaf(
    c: Option<Box<Tree<crate::bit_vector::Builder>>>,
    Ghost(syms): Ghost<Seq<u64>>,
    Ghost(width): Ghost<nat>,
) -> (r: Tree<crate::bit_vector::Builder>)
    requires
        match c {
            None => syms.len() == 0,
            Some(t) => build_models(*t, width, syms),
        },
    ensures
        build_models(r, width, syms),
{
    match c {
        Some(t) => *t,
        None => {
            let leaf = Tree::singleton(crate::bit_vector::Builder::with_capacity(0));
            proof {
                assert(syms =~= Seq::<u64>::empty());
                lemma_build_models_empty(leaf, width);
            }
            leaf
        },
    }
}

/// A node with no bits and no children models the empty sequence.
proof fn lemma_build_models_empty(t: Tree<crate::bit_vector::Builder>, width: nat)
    requires
        t.value@ == Seq::<bool>::empty(),
        t.value.wf(),
        t.left is None,
        t.right is None,
    ensures
        build_models(t, width, Seq::<u64>::empty()),
    decreases width,
{
    if width > 0 {
        let k = width as int - 1;
        assert(plane(Seq::<u64>::empty(), k) =~= Seq::<bool>::empty());
    }
}

/// Replaces every builder in the tree by its finished bit vector.
fn finish_rec(t: Tree<crate::bit_vector::Builder>, width: usize, Ghost(syms): Ghost<Seq<u64>>) -> (r:
    Tree<BitVector>)
    requires
        build_models(t, width as nat, syms),
        width <= 64,
    ensures
        tree_models(r, width as nat, syms),
    decreases width,
{
    if width == 0 {
        return Tree::singleton(BitVector::zero(0));
    }
    let ghost k = width as int - 1;
    let Tree { value, left, right } = t;
    let bv = value.finish();
    let l2 = match left {
        Some(c) => Some(Box::new(finish_rec(*c, width - 1, Ghost(route(syms, k, false))))),
        None => None,
    };
    let r2 = match right {
        Some(c) => Some(Box::new(finish_rec(*c, width - 1, Ghost(route(syms, k, true))))),
        None => None,
    };
    Tree { value: bv, left: l2, right: r2 }
}

/// Builds a [`Wavelet`] from symbols pushed one at a time.
pub struct Builder {
    tree: Tree<crate::bit_vector::Builder>,
    width: usize,
    count: usize,
    /// The symbols pushed, for specification only.
    syms: Ghost<Seq<u64>>,
}

impl View for Builder {
    type V = Seq<u64>;

    closed spec fn view(&self) -> Seq<u64> {
        self.syms@
    }
}

impl Builder {
    /// The builder's invariant.
    pub closed spec fn wf(&self) -> bool {
        &&& build_models(self.tree, self.width as nat, self.syms@)
        &&& 1 <= self.width <= 64
        &&& self.count == self.syms@.len()
        &&& forall|j: int|
            0 <= j < self.syms@.len() ==> fits(#[trigger] self.syms@[j], self.width as int)
    }

    /// The symbol width in bits.
    pub closed spec fn width_spec(&self) -> nat {
        self.width as nat
    }

    /// An empty builder for symbols of `width` bits.
    pub fn new(width: usize) -> (r: Builder)
        requires
            1 <= width <= 64,
        ensures
            r.wf(),
            r@ == Seq::<u64>::empty(),
            r.width_spec() == width,
    {
        let tree = Tree::singleton(crate::bit_vector::Builder::with_capacity(0));
        proof {
            lemma_build_models_empty(tree, width as nat);
        }
        Builder { tree, width, count: 0, syms: Ghost(Seq::empty()) }
    }

    /// Appends one symbol, which must fit the width.
    pub fn push(&mut self, sym: u64)
        requires
            old(self).wf(),
            fits(sym, old(self).width_spec() as int),
            old(self)@.len() < usize::MAX - 64,
        ensures
            final(self).wf(),
            final(self)@ == old(self)@.push(sym),
            final(self).width_spec() == old(self).width_spec(),
    {
        let mut tree = Tree::singleton(crate::bit_vector::Builder::with_capacity(0));
        core::mem::swap(&mut tree, &mut self.tree);
        let tree2 = push_rec(tree, self.width, sym, Ghost(self.syms@));
        self.tree = tree2;
        self.count = self.count + 1;
        self.syms = Ghost(self.syms@.push(sym));
    }

    /// Finishes every node's bit vector and returns the wavelet tree.
    pub fn finish(self) -> (r: Wavelet)
        requires
            self.wf(),
        ensures
            r.wf(),
            r@ == self@,
            r.width_spec() == self.width_spec(),
    {
        let Builder { tree, width, count, syms } = self;
        let tree2 = finish_rec(tree, width, Ghost(syms@));
        Wavelet { tree: tree2, width, count, syms }
    }
}

} // verus!
