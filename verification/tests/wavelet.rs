use succinct::dictionary::{Access, Collection, Rank, Select};
use succinct::wavelet::Builder;

fn build(width: usize, syms: &[u64]) -> succinct::wavelet::Wavelet {
    let mut b = Builder::new(width);
    for &s in syms.iter() {
        b.push(s);
    }
    b.finish()
}

#[test]
fn wavelet_test_select() {
    let v: Vec<u64> = vec![4, 6, 2, 7, 5, 1, 6, 2];
    let wavelet = build(8, &v);
    assert_eq!(wavelet.select(2, 2), 8);
}

#[test]
fn mod_test_select() {
    let v: Vec<u64> = vec![4, 6, 2, 7, 5, 1, 6, 2];
    let wavelet = build(8, &v);
    assert_eq!(wavelet.select(2, 2), 8);
}

#[test]
fn test_symbol_eq() {
    let v: Vec<u64> = vec![4, 6, 2, 7, 5, 1, 6, 2];
    let wavelet = build(8, &v);
    assert!(wavelet.symbol_eq(7, 3));
    assert!(!wavelet.symbol_eq(7, 2));
}

// The same sequence over 3-bit symbols: select, access and symbol_eq.
#[test]
fn test_wavelet_three_bit() {
    let v: Vec<u64> = vec![4, 6, 2, 7, 5, 1, 6, 2];
    let wavelet = build(3, &v);
    assert_eq!(wavelet.select(2, 2), 8);
    assert_eq!(wavelet.access(3), 7);
    assert!(wavelet.symbol_eq(7, 3));
    assert!(!wavelet.symbol_eq(7, 2));
}

// Wavelet round trip: access returns every symbol, and rank and select
// agree with the naive counts over the plain vector.
#[test]
fn test_wavelet_round_trip() {
    let v: Vec<u64> = vec![4, 6, 2, 7, 5, 1, 6, 2, 0, 3, 3, 7, 4, 1];
    let wavelet = build(3, &v);
    assert_eq!(wavelet.len(), v.len());
    for i in 0..v.len() {
        assert_eq!(wavelet.access(i), v[i]);
        assert_eq!(wavelet.get(i), v[i]);
    }
    for sym in 0u64..8 {
        for i in 0..=v.len() {
            assert_eq!(wavelet.rank(sym, i), v.rank(sym, i));
        }
        let total = wavelet.rank(sym, v.len());
        assert_eq!(wavelet.select(sym, 0), 0);
        for n in 1..=total {
            assert_eq!(wavelet.select(sym, n), v.select(sym, n));
        }
    }
}

// A symbol wider than the tree occurs nowhere.
#[test]
fn test_wavelet_oversized_symbol() {
    let v: Vec<u64> = vec![1, 2, 3];
    let wavelet = build(2, &v);
    assert_eq!(wavelet.rank(5, 3), 0);
    assert_eq!(wavelet.select(5, 0), 0);
    assert!(!wavelet.symbol_eq(5, 1));
}

// rank at the endpoints: nothing before position 0, everything at the
// full length.
#[test]
fn test_wavelet_rank_endpoints() {
    let v: Vec<u64> = vec![3, 1, 3, 2, 3];
    let wavelet = build(2, &v);
    assert_eq!(wavelet.rank(3, 0), 0);
    assert_eq!(wavelet.rank(3, 5), 3);
    assert_eq!(wavelet.rank(0, 5), 0);
}

// Full-width symbols work too.
#[test]
fn test_wavelet_wide_symbols() {
    let v: Vec<u64> = vec![u64::MAX, 0, u64::MAX, 42];
    let wavelet = build(64, &v);
    assert_eq!(wavelet.access(0), u64::MAX);
    assert_eq!(wavelet.access(3), 42);
    assert_eq!(wavelet.rank(u64::MAX, 4), 2);
    assert_eq!(wavelet.select(u64::MAX, 2), 3);
    assert_eq!(wavelet.select(42, 1), 4);
}
