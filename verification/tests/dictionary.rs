use succinct::dictionary::{Access, BitRank, Collection, PopCount, Rank, Select};

#[test]
fn test_u64_select() {
    assert_eq!(0x5u64.select(true, 0), 0);
    assert_eq!(0x5u64.select(true, 1), 1);
}

#[test]
fn test_pop_count() {
    assert_eq!(0x1u64.pop_count(), 1);
    assert_eq!(0xffu64.pop_count(), 8);
}

// The broadword select primitive returns the 0-based position of the
// n-th matching bit itself.
#[test]
fn test_word_select_position() {
    assert_eq!(succinct::broadword::select(0x5, true, 1), 0);
    assert_eq!(succinct::broadword::select(0x5, true, 2), 2);
    assert_eq!(succinct::broadword::select(0xff00, false, 1), 0);
    assert_eq!(succinct::broadword::select(0xff00, true, 1), 8);
}

#[test]
fn test_word_rank() {
    assert_eq!(succinct::broadword::rank1(0x5, 0), 0);
    assert_eq!(succinct::broadword::rank1(0x5, 1), 1);
    assert_eq!(succinct::broadword::rank1(0x5, 3), 2);
    assert_eq!(succinct::broadword::rank1(0x5, 64), 2);
    assert_eq!(succinct::broadword::rank1(u64::MAX, 200), 64);
    assert_eq!(succinct::broadword::rank0(0x5, 4), 2);
    assert_eq!(succinct::broadword::pop_count(0), 0);
    assert_eq!(succinct::broadword::pop_count(u64::MAX), 64);
}

#[test]
fn test_u64_dictionary_traits() {
    let x: u64 = 0b1010;
    assert_eq!(x.len(), 64);
    assert_eq!(x.get(0), false);
    assert_eq!(x.get(1), true);
    assert_eq!(x.rank(true, 4), 2);
    assert_eq!(x.rank(false, 4), 2);
    assert_eq!(x.rank1(64), 2);
    assert_eq!(x.rank0(64), 62);
}

#[test]
fn test_vec_rank_select() {
    let v: Vec<u64> = vec![4, 6, 2, 7, 5, 1, 6, 2];
    assert_eq!(v.rank(6, 8), 2);
    assert_eq!(v.rank(6, 2), 1);
    assert_eq!(v.rank(9, 8), 0);
    assert_eq!(v.select(6, 0), 0);
    assert_eq!(v.select(6, 1), 2);
    assert_eq!(v.select(6, 2), 7);
    assert_eq!(v.select(2, 2), 8);
}

#[test]
fn test_div_ceil() {
    assert_eq!(succinct::utils::div_ceil(0, 64), 0);
    assert_eq!(succinct::utils::div_ceil(1, 64), 1);
    assert_eq!(succinct::utils::div_ceil(64, 64), 1);
    assert_eq!(succinct::utils::div_ceil(65, 64), 2);
    assert_eq!(succinct::utils::div_ceil(192, 64), 3);
}
