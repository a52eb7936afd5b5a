use succinct::bit_vector::BitVector;
use succinct::bits::{BitIter, BitIterator};
use succinct::dictionary::{BitRank, Collection, Rank, Select};
use succinct::tree::{Branch, Cursor, Tree};

// Bits come out most significant first.
#[test]
fn test_bit_iterator_order() {
    let mut it = BitIterator::with_width(4, 0b0110);
    assert_eq!(it.next(), Some(false));
    assert_eq!(it.next(), Some(true));
    assert_eq!(it.next(), Some(true));
    assert_eq!(it.next(), Some(false));
    assert_eq!(it.next(), None);
    assert_eq!(it.next(), None);
}

#[test]
fn test_bit_iterator_full_width() {
    let mut it = BitIterator::new(1u64 << 63);
    assert_eq!(it.next(), Some(true));
    for _k in 0..63 {
        assert_eq!(it.next(), Some(false));
    }
    assert_eq!(it.next(), None);
}

#[test]
fn test_bit_iter_trait() {
    let mut it = 0b101u8.bit_iter();
    let mut got = Vec::new();
    while let Some(b) = it.next() {
        got.push(b);
    }
    assert_eq!(got.len(), 8);
    assert_eq!(&got[5..], &[true, false, true]);
    let mut it = 0x8000u16.bit_iter();
    assert_eq!(it.next(), Some(true));
}

#[test]
fn test_tree_singleton_and_branch() {
    let mut t = Tree::singleton(7u64);
    assert!(t.branch(Branch::Left).is_none());
    assert!(t.branch(Branch::Right).is_none());
    *t.branch_mut(Branch::Left) = Some(Box::new(Tree::singleton(3u64)));
    *t.branch_mut(Branch::Right) = Some(Box::new(Tree::singleton(9u64)));
    assert!(t.branch(Branch::Left).is_some());
    assert_eq!(t.left.as_ref().map(|c| c.value), Some(3));
    assert_eq!(t.right.as_ref().map(|c| c.value), Some(9));
}

#[test]
fn test_tree_map() {
    let mut t = Tree::singleton(2u64);
    t.left = Some(Box::new(Tree::singleton(5u64)));
    let mapped = t.map(&|x: &u64| x + 1);
    assert_eq!(mapped.value, 3);
    assert_eq!(mapped.left.as_ref().map(|c| c.value), Some(6));
    assert!(mapped.right.is_none());
    let moved = t.map_move(&|x: u64| x * 2);
    assert_eq!(moved.value, 4);
    assert_eq!(moved.left.as_ref().map(|c| c.value), Some(10));
}

#[test]
fn test_cursor_walk() {
    let mut t = Tree::singleton(1u64);
    t.left = Some(Box::new(Tree::singleton(2u64)));
    t.right = Some(Box::new(Tree::singleton(3u64)));
    let mut cursor = Cursor::new(&t);
    assert_eq!(*cursor.value(), 1);
    cursor.step(Branch::Left);
    assert_eq!(*cursor.value(), 2);
    cursor.back_to_root();
    assert_eq!(*cursor.value(), 1);
    cursor.step(Branch::Right);
    assert_eq!(*cursor.value(), 3);
}

// Empty structures answer the trivial queries.
#[test]
fn test_empty_structures() {
    let bv = BitVector::zero(0);
    assert_eq!(bv.len(), 0);
    assert_eq!(bv.rank1(0), 0);
    assert_eq!(bv.select(true, 0), 0);

    let r9 = succinct::rank9::Rank9::from_vec(&Vec::new(), 0);
    assert_eq!(r9.len(), 0);
    assert_eq!(r9.rank1(0), 0);
    assert_eq!(r9.select(true, 0), 0);

    let w = succinct::wavelet::Builder::new(3).finish();
    assert_eq!(w.len(), 0);
    assert_eq!(w.rank(2, 0), 0);
    assert_eq!(w.select(2, 0), 0);
}

// The naive oracle agrees with itself on a small vector and reports when
// a count is exhausted.
#[test]
fn test_naive_rank_select() {
    let v = vec![0b0110u64];
    let bv = BitVector::from_vec(&v, 64);
    assert_eq!(succinct::naive::rank(&bv, true, 4), 2);
    assert_eq!(succinct::naive::select(&bv, true, 0), Some(0));
    assert_eq!(succinct::naive::select(&bv, true, 2), Some(3));
    assert_eq!(succinct::naive::select(&bv, true, 3), None);
}
