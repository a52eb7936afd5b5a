//! The mathematical model that every dictionary contract is written against.
//!
//! A packed buffer of broadwords is read as a sequence of bits through
//! [`word_bits`] and [`words_bits`]; counting a symbol in a prefix is
//! [`rank_of`]; [`is_select_of`] characterises the answer of a `select`
//! query.  The proof functions at the end state the laws that relate the two
//! queries: monotonicity of rank, `rank1 + rank0 == i`, the endpoints, and
//! that `select` inverts `rank` and is unique.

use vstd::prelude::*;

verus! {

/// True when bit `i` of `w` is set; bit 0 is the least significant.
pub open spec fn nth_bit(w: u64, i: int) -> bool {
    (w >> (i as u64)) & 1 == 1
}

/// The 64 bits of one broadword, least significant first.
pub open spec fn word_bits(w: u64) -> Seq<bool> {
    Seq::new(64, |i: int| nth_bit(w, i))
}

/// The bits of a buffer of broadwords: bit `i` lives in word `i / 64` at
/// position `i % 64`.
pub open spec fn words_bits(ws: Seq<u64>) -> Seq<bool> {
    Seq::new(64 * ws.len(), |i: int| nth_bit(ws[i / 64], i % 64))
}

/// The number of occurrences of `x` among the first `i` elements of `s`.
pub open spec fn rank_of<T>(s: Seq<T>, x: T, i: int) -> int
    decreases i,
{
    if i <= 0 {
        0
    } else {
        rank_of(s, x, i - 1) + if s[i - 1] == x {
            1int
        } else {
            0int
        }
    }
}

/// What a dictionary `select(x, n)` query must return: the smallest `r` with
/// `rank_of(s, x, r) == n`.  For `n >= 1` that is the position one past the
/// `n`-th occurrence of `x`; for `n == 0` it is `0` by convention.
pub open spec fn is_select_of<T>(s: Seq<T>, x: T, n: int, r: int) -> bool {
    &&& rank_of(s, x, r) == n
    &&& if n > 0 {
        1 <= r <= s.len() && s[r - 1] == x
    } else {
        r == 0
    }
}

/// The number of set bits in one broadword.
pub open spec fn pop_of(w: u64) -> int {
    rank_of(word_bits(w), true, 64)
}

/// The number of set bits in the first `w` words of a buffer.
pub open spec fn wones(ws: Seq<u64>, w: int) -> int
    decreases w,
{
    if w <= 0 {
        0
    } else {
        wones(ws, w - 1) + pop_of(ws[w - 1])
    }
}

/// Rank never decreases, and grows by at most one per position.
pub proof fn lemma_rank_monotone<T>(s: Seq<T>, x: T, i: int, j: int)
    requires
        0 <= i <= j,
    ensures
        rank_of(s, x, i) <= rank_of(s, x, j),
        rank_of(s, x, j) - rank_of(s, x, i) <= j - i,
    decreases j - i,
{
    if i < j {
        lemma_rank_monotone(s, x, i, j - 1);
    }
}

/// Rank lies between 0 and the length of the prefix counted.
pub proof fn lemma_rank_bounds<T>(s: Seq<T>, x: T, i: int)
    requires
        0 <= i,
    ensures
        0 <= rank_of(s, x, i) <= i,
{
    lemma_rank_monotone(s, x, 0, i);
}

/// Every position holds either a one or a zero: the two ranks of a prefix
/// add up to its length.
pub proof fn lemma_rank_bool_split(s: Seq<bool>, i: int)
    requires
        0 <= i,
    ensures
        rank_of(s, true, i) + rank_of(s, false, i) == i,
    decreases i,
{
    if i > 0 {
        lemma_rank_bool_split(s, i - 1);
    }
}

/// Rank only looks at the prefix it counts: sequences that agree below `i`
/// have the same rank at `i`.
pub proof fn lemma_rank_agree<T>(s: Seq<T>, t: Seq<T>, x: T, i: int)
    requires
        0 <= i,
        forall|j: int| 0 <= j < i ==> s[j] == t[j],
    ensures
        rank_of(s, x, i) == rank_of(t, x, i),
    decreases i,
{
    if i > 0 {
        lemma_rank_agree(s, t, x, i - 1);
    }
}

/// Rank does not change across a stretch that holds no occurrence of `x`.
pub proof fn lemma_rank_constant<T>(s: Seq<T>, x: T, i: int, j: int)
    requires
        0 <= i <= j,
        forall|k: int| i <= k < j ==> s[k] != x,
    ensures
        rank_of(s, x, j) == rank_of(s, x, i),
    decreases j - i,
{
    if i < j {
        lemma_rank_constant(s, x, i, j - 1);
    }
}

/// When every element of the prefix equals `x`, rank counts all of it.
pub proof fn lemma_rank_all_match<T>(s: Seq<T>, x: T, i: int)
    requires
        0 <= i,
        forall|k: int| 0 <= k < i ==> s[k] == x,
    ensures
        rank_of(s, x, i) == i,
    decreases i,
{
    if i > 0 {
        lemma_rank_all_match(s, x, i - 1);
    }
}

/// The bits of a buffer decompose word by word: the rank at position `n`
/// is the ones in the full words before `n` plus the ones in the low
/// `n % 64` bits of the word holding `n`.
pub proof fn lemma_words_rank(ws: Seq<u64>, n: int)
    requires
        0 <= n <= 64 * ws.len(),
    ensures
        rank_of(words_bits(ws), true, n) == wones(ws, n / 64) + rank_of(
            word_bits(ws[n / 64]),
            true,
            n % 64,
        ),
    decreases n,
{
    if n > 0 {
        lemma_words_rank(ws, n - 1);
        let w = n / 64;
        let r = n % 64;
        if r == 0 {
            // `n` starts a new word: fold the previous word's 64 bits into `wones`.
            assert((n - 1) / 64 == w - 1 && (n - 1) % 64 == 63) by (nonlinear_arith)
                requires
                    n > 0 && n % 64 == 0 && w == n / 64,
            ;
            assert(words_bits(ws)[n - 1] == nth_bit(ws[w - 1], 63));
            assert(rank_of(word_bits(ws[w - 1]), true, 64) == rank_of(
                word_bits(ws[w - 1]),
                true,
                63,
            ) + if word_bits(ws[w - 1])[63] == true {
                1int
            } else {
                0int
            });
        } else {
            assert((n - 1) / 64 == w && (n - 1) % 64 == r - 1) by (nonlinear_arith)
                requires
                    n > 0 && n % 64 == r && r != 0 && w == n / 64,
            ;
            assert(words_bits(ws)[n - 1] == nth_bit(ws[w], r - 1));
        }
    }
}

/// The word-by-word decomposition for either bit value: zeros in a prefix
/// are its length minus the ones.
pub proof fn lemma_words_rank_bit(ws: Seq<u64>, n: int, b: bool)
    requires
        0 <= n <= 64 * ws.len(),
    ensures
        rank_of(words_bits(ws), b, n) == rank_of(words_bits(ws), b, 64 * (n / 64)) + rank_of(
            word_bits(ws[n / 64]),
            b,
            n % 64,
        ),
        n % 64 == 0 ==> rank_of(word_bits(ws[n / 64]), b, n % 64) == 0,
{
    let w = n / 64;
    let r = n % 64;
    assert(n == 64 * w + r && 0 <= r < 64 && 0 <= w) by (nonlinear_arith)
        requires
            0 <= n && w == n / 64 && r == n % 64,
    ;
    assert(64 * w <= n) by (nonlinear_arith)
        requires
            n == 64 * w + r && 0 <= r,
    ;
    assert((64 * w) / 64 == w && (64 * w) % 64 == 0) by (nonlinear_arith);
    lemma_words_rank(ws, n);
    lemma_words_rank(ws, 64 * w);
    if !b {
        lemma_rank_bool_split(words_bits(ws), n);
        lemma_rank_bool_split(words_bits(ws), 64 * w);
        lemma_rank_bool_split(word_bits(ws[w]), r);
    }
}

/// Counting full words and counting their bits agree.
pub proof fn lemma_wones_is_rank(ws: Seq<u64>, w: int)
    requires
        0 <= w <= ws.len(),
    ensures
        wones(ws, w) == rank_of(words_bits(ws), true, 64 * w),
{
    assert((64 * w) / 64 == w && (64 * w) % 64 == 0) by (nonlinear_arith)
        requires
            0 <= w,
    ;
    lemma_words_rank(ws, 64 * w);
}

/// One whole word's worth of bits adds that word's count to the rank.
pub proof fn lemma_words_rank_word(ws: Seq<u64>, w: int, b: bool)
    requires
        0 <= w < ws.len(),
    ensures
        rank_of(words_bits(ws), b, 64 * (w + 1)) == rank_of(words_bits(ws), b, 64 * w) + rank_of(
            word_bits(ws[w]),
            b,
            64,
        ),
{
    lemma_wones_is_rank(ws, w);
    lemma_wones_is_rank(ws, w + 1);
    if !b {
        lemma_rank_bool_split(words_bits(ws), 64 * w);
        lemma_rank_bool_split(words_bits(ws), 64 * (w + 1));
        lemma_rank_bool_split(word_bits(ws[w]), 64);
    }
}

/// The rank at `64 * w + r` splits into the rank at the start of word `w`
/// plus the rank over the low `r` bits of that word.
pub proof fn lemma_words_rank_split(ws: Seq<u64>, w: int, r: int, b: bool)
    requires
        0 <= w < ws.len(),
        0 <= r <= 64,
    ensures
        rank_of(words_bits(ws), b, 64 * w + r) == rank_of(words_bits(ws), b, 64 * w) + rank_of(
            word_bits(ws[w]),
            b,
            r,
        ),
{
    if r == 64 {
        lemma_words_rank_word(ws, w, b);
    } else {
        assert((64 * w + r) / 64 == w && (64 * w + r) % 64 == r && 64 * ((64 * w + r) / 64) == 64
            * w) by (nonlinear_arith)
            requires
                0 <= w && 0 <= r < 64,
        ;
        lemma_words_rank_bit(ws, 64 * w + r, b);
    }
}

/// Appending a word to a buffer appends its 64 bits to the bit sequence.
pub proof fn lemma_words_bits_push(ws: Seq<u64>, w: u64)
    ensures
        words_bits(ws.push(w)) == words_bits(ws) + word_bits(w),
{
    let lhs = words_bits(ws.push(w));
    let rhs = words_bits(ws) + word_bits(w);
    assert forall|i: int| 0 <= i < lhs.len() implies lhs[i] == rhs[i] by {
        if i < 64 * ws.len() {
            assert(0 <= i / 64 < ws.len()) by (nonlinear_arith)
                requires
                    0 <= i < 64 * ws.len(),
            ;
            assert(ws.push(w)[i / 64] == ws[i / 64]);
        } else {
            assert(i / 64 == ws.len() && i % 64 == i - 64 * ws.len()) by (nonlinear_arith)
                requires
                    64 * ws.len() <= i < 64 * (ws.len() + 1),
            ;
        }
    }
    assert(lhs =~= rhs);
}

/// `select` inverts `rank`: if `r` answers `select(x, n)` with `n >= 1`,
/// then the rank at `r` is exactly `n` and the element at `r - 1` is `x`.
pub proof fn lemma_rank_select_inversion<T>(s: Seq<T>, x: T, n: int, r: int)
    requires
        n >= 1,
        is_select_of(s, x, n, r),
    ensures
        rank_of(s, x, r) == n,
        1 <= r <= s.len(),
        s[r - 1] == x,
{
}

/// The answer of a `select` query is unique.
pub proof fn lemma_select_unique<T>(s: Seq<T>, x: T, n: int, r1: int, r2: int)
    requires
        is_select_of(s, x, n, r1),
        is_select_of(s, x, n, r2),
    ensures
        r1 == r2,
{
    // With n == 0 both answers are pinned to 0.  With n >= 1, suppose the
    // answers differed, say r1 < r2: the occurrence of `x` at r2 - 1 pushes
    // the rank at r2 strictly above the rank at r1, yet both equal n.
    if n > 0 {
        if r1 < r2 {
            lemma_rank_monotone(s, x, r1, r2 - 1);
            assert(rank_of(s, x, r2) == rank_of(s, x, r2 - 1) + 1);
        }
        if r2 < r1 {
            lemma_rank_monotone(s, x, r2, r1 - 1);
            assert(rank_of(s, x, r1) == rank_of(s, x, r1 - 1) + 1);
        }
    }
}

/// A valid `select` answer exists whenever `n` does not exceed the count in
/// the first `m` positions.
pub proof fn lemma_select_exists<T>(s: Seq<T>, x: T, n: int, m: int)
    requires
        1 <= n <= rank_of(s, x, m),
        0 <= m <= s.len(),
    ensures
        exists|r: int| 1 <= r <= m && #[trigger] rank_of(s, x, r) == n && s[r - 1] == x,
    decreases m,
{
    lemma_rank_bounds(s, x, m);
    if rank_of(s, x, m - 1) >= n {
        lemma_select_exists(s, x, n, m - 1);
        let r = choose|r: int|
            1 <= r <= m - 1 && #[trigger] rank_of(s, x, r) == n && s[r - 1] == x;
        assert(1 <= r <= m && rank_of(s, x, r) == n && s[r - 1] == x);
    } else {
        // rank steps by at most one, so rank_of(s, x, m) == n and s[m-1] == x.
        assert(rank_of(s, x, m) == rank_of(s, x, m - 1) + if s[m - 1] == x {
            1int
        } else {
            0int
        });
        assert(rank_of(s, x, m) == n && s[m - 1] == x);
    }
}

/// Any position whose rank has not yet reached `n` lies strictly before a
/// position whose rank reaches `n`.
pub proof fn lemma_rank_position<T>(s: Seq<T>, x: T, p: int, m: int, n: int)
    requires
        0 <= p,
        0 <= m,
        rank_of(s, x, p) < n,
        n <= rank_of(s, x, m),
    ensures
        p < m,
{
    if m <= p {
        lemma_rank_monotone(s, x, m, p);
    }
}

/// Rank at the endpoints: an empty prefix holds no occurrences, and the
/// full prefix counts every occurrence in the sequence.
pub proof fn lemma_rank_endpoints<T>(s: Seq<T>, x: T)
    ensures
        rank_of(s, x, 0) == 0,
        rank_of(s, x, s.len() as int) == s.filter(|e: T| e == x).len(),
{
    lemma_rank_is_filter_len(s, x, s.len() as int);
    assert(s.take(s.len() as int) =~= s);
}

proof fn lemma_rank_is_filter_len<T>(s: Seq<T>, x: T, i: int)
    requires
        0 <= i <= s.len(),
    ensures
        rank_of(s, x, i) == s.take(i).filter(|e: T| e == x).len(),
    decreases i,
{
    let pred = |e: T| e == x;
    if i == 0 {
        assert(s.take(0) =~= Seq::<T>::empty());
        assert(s.take(0).filter(pred) =~= Seq::<T>::empty());
    } else {
        lemma_rank_is_filter_len(s, x, i - 1);
        assert(s.take(i).drop_last() =~= s.take(i - 1));
        assert(s.take(i) == s.take(i).drop_last().push(s[i - 1]));
        lemma_filter_push(s.take(i - 1), pred, s[i - 1]);
    }
}

proof fn lemma_filter_push<T>(s: Seq<T>, pred: spec_fn(T) -> bool, e: T)
    ensures
        s.push(e).filter(pred) == if pred(e) {
            s.filter(pred).push(e)
        } else {
            s.filter(pred)
        },
    decreases s.len(),
{
    reveal(Seq::filter);
    assert(s.push(e).drop_last() =~= s);
    assert(s.push(e).last() == e);
}

} // verus!
