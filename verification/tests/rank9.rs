use succinct::bit_vector::BitVector;
use succinct::dictionary::{Access, BitRank, BitSelect, Collection, Select};
use succinct::rank9::{binary_search, Builder, Rank9, WordBuilder};

fn example() -> Rank9 {
    let v = vec![0b0110, 0b1001, 0b1100];
    Rank9::from_vec(&v, 64 * 3)
}

#[test]
fn rank9_test_rank0() {
    let bv = example();
    let rank0: Vec<(usize, usize)> = vec![
        (0 + 0 * 64, 0), // rank is non exclusive; rank of zero is always 0
        (1 + 0 * 64, 1),
        (2 + 0 * 64, 1),
        (3 + 0 * 64, 1),
        (4 + 0 * 64, 2),
        (0 + 1 * 64, 62), // second broadword
        (1 + 1 * 64, 62),
        (2 + 1 * 64, 63),
        (3 + 1 * 64, 64),
        (4 + 1 * 64, 64),
        (0 + 2 * 64, 124),
        (1 + 2 * 64, 125),
        (2 + 2 * 64, 126),
        (3 + 2 * 64, 126),
        (4 + 2 * 64, 126),
    ];
    for &(select, rank) in rank0.iter() {
        let a = bv.rank0(select);
        if a != rank {
            panic!("rank0({}) failed: expected {}, saw {}", select, rank, a);
        }
    }
}

#[test]
fn rank9_test_rank1() {
    let bv = example();
    let rank1: Vec<(usize, usize)> = vec![
        (0 + 0 * 64, 0), // rank is non exclusive; rank of zero is always 0
        (1 + 0 * 64, 0),
        (2 + 0 * 64, 1),
        (3 + 0 * 64, 2),
        (4 + 0 * 64, 2),
        (0 + 1 * 64, 2), // second broadword
        (1 + 1 * 64, 3),
        (2 + 1 * 64, 3),
        (3 + 1 * 64, 3),
        (4 + 1 * 64, 4),
        (0 + 2 * 64, 4),
        (1 + 2 * 64, 4),
        (2 + 2 * 64, 4),
        (3 + 2 * 64, 5),
        (4 + 2 * 64, 6),
    ];
    for &(select, rank) in rank1.iter() {
        let a = bv.rank1(select);
        if a != rank {
            panic!("rank1({}) failed: expected {}, saw {}", select, rank, a);
        }
    }
}

#[test]
fn rank9_test_select0() {
    let bv = example();
    let select0: Vec<(usize, usize)> = vec![
        (0, 0 + 0 * 64),
        (1, 1 + 0 * 64),
        (2, 4 + 0 * 64),
        (62, 0 + 1 * 64),
        (63, 2 + 1 * 64),
        (64, 3 + 1 * 64),
        (65, 5 + 1 * 64),
        (124, 0 + 2 * 64),
        (125, 1 + 2 * 64),
        (126, 2 + 2 * 64),
        (127, 5 + 2 * 64),
    ];
    for &(rank, select) in select0.iter() {
        let a = bv.select(false, rank);
        if a != select {
            panic!("select0({}) failed: expected {}, saw {}", rank, select, a);
        }
    }
}

#[test]
fn rank9_test_select1() {
    let bv = example();
    let select1: Vec<(usize, usize)> = vec![
        (0, 0 + 0 * 64),
        (1, 2 + 0 * 64),
        (2, 3 + 0 * 64),
        (3, 1 + 1 * 64),
        (4, 4 + 1 * 64),
        (5, 3 + 2 * 64),
        (6, 4 + 2 * 64),
    ];
    for &(rank, select) in select1.iter() {
        let a = bv.select(true, rank);
        if a != select {
            panic!("select1({}) failed: expected {}, saw {}", rank, select, a);
        }
    }
}

#[test]
fn test_binary_search2() {
    let xs: Vec<u64> = vec![0, 22, 41, 63];
    assert_eq!(binary_search(&xs, 63, 0, xs.len()), Ok(3));
}

#[test]
fn test_binary_search() {
    let xs: Vec<u64> = vec![0, 3, 5, 8];
    assert_eq!(binary_search(&xs, 5, 0, xs.len()), Ok(2));
    assert_eq!(binary_search(&xs, 4, 0, xs.len()), Err(2));
    assert_eq!(binary_search(&xs, 0, 0, xs.len()), Ok(0));
    assert_eq!(binary_search(&xs, 9, 0, xs.len()), Err(4));
}

// Block boundaries: an all-ones vector of 512 * 3 bits has rank1(i) == i
// everywhere and select1(k) == k for every valid k.
#[test]
fn test_rank9_block_boundaries() {
    let v: Vec<u64> = vec![u64::MAX; 24];
    let bv = Rank9::from_vec(&v, 1536);
    for i in 0..=1536 {
        assert_eq!(bv.rank1(i), i);
    }
    for k in 1..=1536 {
        assert_eq!(bv.select(true, k), k);
    }
}

// Long runs of ones crossing block boundaries: select0 still finds the
// sparse zeros.
#[test]
fn test_rank9_select0_in_ones() {
    let mut v: Vec<u64> = vec![u64::MAX; 24];
    v[10] = u64::MAX & !(1 << 7); // one zero at position 647
    v[20] = u64::MAX & !(1 << 11); // one zero at position 1291
    let bv = Rank9::from_vec(&v, 1536);
    assert_eq!(bv.rank0(1536), 2);
    assert_eq!(bv.select0(1), 648);
    assert_eq!(bv.select0(2), 1292);
    assert_eq!(bv.select1(1), 1);
}

// Cross-check rank and select against the naive linear scans over the
// same bits held in a plain bit vector.
#[test]
fn test_rank9_cross_check_naive() {
    let words = vec![0xdead_beef_0123_4567u64, 0, 0x8000_0000_0000_0001u64, 0xffff_ffff_ffff_fffeu64];
    let r9 = Rank9::from_vec(&words, 256);
    let plain = BitVector::from_vec(&words, 256);
    for i in 0..=256 {
        assert_eq!(r9.rank1(i), succinct::naive::rank(&plain, true, i));
        assert_eq!(r9.rank0(i), succinct::naive::rank(&plain, false, i));
    }
    for i in 0..256 {
        assert_eq!(r9.get(i), plain.get(i));
    }
    let ones = r9.rank1(256);
    for n in 1..=ones {
        assert_eq!(Some(r9.select(true, n)), succinct::naive::select(&plain, true, n));
    }
    let zeros = r9.rank0(256);
    for n in 1..=zeros {
        assert_eq!(Some(r9.select(false, n)), succinct::naive::select(&plain, false, n));
    }
}

// The word and bit builders produce the same structure as from_vec.
#[test]
fn test_rank9_builders() {
    let words = vec![0b0110u64, 0b1001, 0b1100];
    let mut wb = WordBuilder::with_capacity(3);
    for &w in words.iter() {
        wb.push(w);
    }
    let r9 = wb.finish();
    assert_eq!(r9.len(), 192);
    assert_eq!(r9.rank1(3), 2);
    assert_eq!(r9.select(true, 3), 65);

    let mut bb = Builder::with_capacity(130);
    for i in 0..130 {
        bb.push(i % 3 == 0);
    }
    let r9 = bb.finish();
    assert_eq!(r9.len(), 130);
    for i in 0..=130 {
        let expect = (i + 2) / 3;
        assert_eq!(r9.rank1(i), expect);
    }
}

// Batched block location for sorted counts.
#[test]
fn test_select_all_blocks() {
    let v: Vec<u64> = vec![u64::MAX; 24];
    let bv = Rank9::from_vec(&v, 1536);
    let ns: Vec<usize> = vec![1, 512, 513, 1024, 1025, 1536];
    let blocks = bv.select_all_blocks(true, ns);
    assert_eq!(blocks, vec![0, 0, 1, 1, 2, 2]);
}

#[test]
fn rank9_test_get() {
    let bv = example();
    assert_eq!(bv.get(0), false);
    assert_eq!(bv.get(1), true);
    assert_eq!(bv.get(64), true);
    assert_eq!(bv.len(), 192);
}
