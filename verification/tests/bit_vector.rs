use succinct::bit_vector::{BitVector, Builder};
use succinct::dictionary::{Access, BitRank, Collection, Select};

fn example() -> BitVector {
    let v = vec![0b0110, 0b1001, 0b1100];
    BitVector::from_vec(&v, 64 * 3)
}

#[test]
fn bit_vector_test_select0() {
    let bv = example();
    let select0: Vec<(usize, usize)> = vec![
        (0, 0 + 0 * 64),
        (1, 1 + 0 * 64),
        (2, 4 + 0 * 64),
        (62, 0 + 1 * 64),
        (63, 2 + 1 * 64),
        (64, 3 + 1 * 64),
        (65, 5 + 1 * 64),
        (124, 0 + 2 * 64),
        (125, 1 + 2 * 64),
        (126, 2 + 2 * 64),
        (127, 5 + 2 * 64),
    ];
    for &(rank, select) in select0.iter() {
        let a = bv.select(false, rank);
        if a != select {
            panic!("select0({}) failed: expected {}, saw {}", rank, select, a);
        }
    }
}

#[test]
fn bit_vector_test_select1() {
    let bv = example();
    let select1: Vec<(usize, usize)> = vec![
        (0, 0 + 0 * 64),
        (1, 2 + 0 * 64),
        (2, 3 + 0 * 64),
        (3, 1 + 1 * 64),
        (4, 4 + 1 * 64),
        (5, 3 + 2 * 64),
        (6, 4 + 2 * 64),
    ];
    for &(rank, select) in select1.iter() {
        let a = bv.select(true, rank);
        if a != select {
            panic!("select1({}) failed: expected {}, saw {}", rank, select, a);
        }
    }
}

#[test]
fn bit_vector_test_rank0() {
    let bv = example();
    let rank0: Vec<(usize, usize)> = vec![
        (0 + 0 * 64, 0), // rank is non exclusive; rank of zero is always 0
        (1 + 0 * 64, 1),
        (2 + 0 * 64, 1),
        (3 + 0 * 64, 1),
        (4 + 0 * 64, 2),
        (0 + 1 * 64, 62), // second broadword
        (1 + 1 * 64, 62),
        (2 + 1 * 64, 63),
        (3 + 1 * 64, 64),
        (4 + 1 * 64, 64),
        (0 + 2 * 64, 124),
        (1 + 2 * 64, 125),
        (2 + 2 * 64, 126),
        (3 + 2 * 64, 126),
        (4 + 2 * 64, 126),
    ];
    for &(select, rank) in rank0.iter() {
        let a = bv.rank0(select);
        if a != rank {
            panic!("rank0({}) failed: expected {}, saw {}", select, rank, a);
        }
    }
}

#[test]
fn bit_vector_test_rank1() {
    let bv = example();
    let rank1: Vec<(usize, usize)> = vec![
        (0 + 0 * 64, 0), // rank is non exclusive; rank of zero is always 0
        (1 + 0 * 64, 0),
        (2 + 0 * 64, 1),
        (3 + 0 * 64, 2),
        (4 + 0 * 64, 2),
        (0 + 1 * 64, 2), // second broadword
        (1 + 1 * 64, 3),
        (2 + 1 * 64, 3),
        (3 + 1 * 64, 3),
        (4 + 1 * 64, 4),
        (0 + 2 * 64, 4),
        (1 + 2 * 64, 4),
        (2 + 2 * 64, 4),
        (3 + 2 * 64, 5),
        (4 + 2 * 64, 6),
    ];
    for &(select, rank) in rank1.iter() {
        let a = bv.rank1(select);
        if a != rank {
            panic!("rank1({}) failed: expected {}, saw {}", select, rank, a);
        }
    }
}

#[test]
fn bit_vector_test_get() {
    let v = vec![0b0110, 0b1001, 0b1100];
    let bv = BitVector::from_vec(&v, 64 * 3);
    assert_eq!(bv.get(0), false);
    assert_eq!(bv.get(1), true);
    assert_eq!(bv.get(2), true);
    assert_eq!(bv.get(3), false);
    assert_eq!(bv.get(64), true);
}

// Builder round trip: the vector built from a stream of bits returns
// exactly those bits from `get`.
#[test]
fn test_builder_round_trip() {
    let bits = vec![
        true, false, false, true, true, true, false, true, false, false, true, false, true,
    ];
    let mut b = Builder::with_capacity(8);
    for &bit in bits.iter() {
        b.push(bit);
    }
    let bv = b.finish();
    assert_eq!(bv.len(), bits.len());
    for (i, &bit) in bits.iter().enumerate() {
        assert_eq!(bv.get(i), bit);
    }
}

// A build that crosses several word boundaries keeps every bit in place.
#[test]
fn test_builder_long_round_trip() {
    let n = 200;
    let mut b = Builder::with_capacity(n);
    let mut bits = Vec::new();
    for i in 0..n {
        let bit = (i * 7 + 3) % 5 == 0;
        bits.push(bit);
        b.push(bit);
    }
    let bv = b.finish();
    assert_eq!(bv.len(), n);
    for i in 0..n {
        assert_eq!(bv.get(i), bits[i]);
    }
}

// An all-zero vector has no ones anywhere.
#[test]
fn test_zero_vector() {
    let bv = BitVector::zero(100);
    assert_eq!(bv.len(), 100);
    for i in 0..100 {
        assert_eq!(bv.get(i), false);
        assert_eq!(bv.rank1(i), 0);
        assert_eq!(bv.rank0(i), i);
    }
    assert_eq!(bv.select(false, 62), 62);
}

// Rank/select inversion on a concrete vector: for every valid count,
// rank1 at the select answer gives the count back and the bit before the
// answer is set.
#[test]
fn test_rank_select_inversion() {
    let v = vec![0xdead_beef_0123_4567u64, 0x0fed_cba9_8765_4321u64];
    let bv = BitVector::from_vec(&v, 128);
    let total = bv.rank1(128);
    for n in 1..=total {
        let r = bv.select(true, n);
        assert_eq!(bv.rank1(r), n);
        assert_eq!(bv.get(r - 1), true);
    }
    let zeros = bv.rank0(128);
    for n in 1..=zeros {
        let r = bv.select(false, n);
        assert_eq!(bv.rank0(r), n);
        assert_eq!(bv.get(r - 1), false);
    }
}

// Rank monotonicity and rank1(i) + rank0(i) == i on a concrete vector.
#[test]
fn test_rank_monotone_and_split() {
    let v = vec![0x8000_0000_0000_0001u64, 0xffff_0000_0000_ffffu64];
    let bv = BitVector::from_vec(&v, 128);
    let mut prev = 0;
    for i in 0..=128 {
        let r1 = bv.rank1(i);
        assert!(prev <= r1);
        assert_eq!(r1 + bv.rank0(i), i);
        prev = r1;
    }
    assert_eq!(bv.rank1(0), 0);
}
