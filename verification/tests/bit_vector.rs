use std::ops::Deref;
use succinct::bit_vector::BitVector;

fn sample() -> BitVector {
    BitVector::new(vec![0, 1, 0, 1, 1, 0, 1, 0, 1])
}

#[test]
fn bit_vector_rank_works() {
    let bv = BitVector::new(vec![0, 1, 0, 1, 1, 0, 1, 0, 1]);
    assert_eq!(bv.rank(0, 0), Some(1));
    assert_eq!(bv.rank(0, 1), Some(1));
    assert_eq!(bv.rank(0, 2), Some(2));
    assert_eq!(bv.rank(0, 3), Some(2));
    assert_eq!(bv.rank(0, 4), Some(2));
    assert_eq!(bv.rank(0, 5), Some(3));
    assert_eq!(bv.rank(0, 6), Some(3));
    assert_eq!(bv.rank(0, 7), Some(4));
    assert_eq!(bv.rank(0, 8), Some(4));
    assert_eq!(bv.rank(0, 9), None);
    assert_eq!(bv.rank(1, 0), Some(0));
    assert_eq!(bv.rank(1, 1), Some(1));
    assert_eq!(bv.rank(1, 2), Some(1));
    assert_eq!(bv.rank(1, 3), Some(2));
    assert_eq!(bv.rank(1, 4), Some(3));
    assert_eq!(bv.rank(1, 5), Some(3));
    assert_eq!(bv.rank(1, 6), Some(4));
    assert_eq!(bv.rank(1, 7), Some(4));
    assert_eq!(bv.rank(1, 8), Some(5));
    assert_eq!(bv.rank(1, 9), None);
}

#[test]
fn bit_vector_select_works() {
    let bv = BitVector::new(vec![0, 1, 0, 1, 1, 0, 1, 0, 1]);
    assert_eq!(bv.select(0, 1), Some(0));
    assert_eq!(bv.select(0, 2), Some(2));
    assert_eq!(bv.select(0, 3), Some(5));
    assert_eq!(bv.select(0, 4), Some(7));
    assert_eq!(bv.select(0, 5), None);
    assert_eq!(bv.select(1, 1), Some(1));
    assert_eq!(bv.select(1, 2), Some(3));
    assert_eq!(bv.select(1, 3), Some(4));
    assert_eq!(bv.select(1, 4), Some(6));
    assert_eq!(bv.select(1, 5), Some(8));
    assert_eq!(bv.select(1, 6), None);
}

#[test]
fn bit_vector_select_zero_fails() {
    let bv = sample();
    assert_eq!(bv.select(0, 0), None);
    assert_eq!(bv.select(1, 0), None);
}

#[test]
fn bit_vector_empty_has_no_answers() {
    let bv = BitVector::new(vec![]);
    assert_eq!(bv.len(), 0);
    assert_eq!(bv.rank(0, 0), None);
    assert_eq!(bv.rank(1, 0), None);
    assert_eq!(bv.select(0, 1), None);
    assert_eq!(bv.select(1, 1), None);
}

#[test]
fn bit_vector_absent_value_counts_zero() {
    let bv = BitVector::new(vec![1, 1, 1]);
    assert_eq!(bv.rank(0, 2), Some(0));
    assert_eq!(bv.select(0, 1), None);
    assert_eq!(bv.rank(2, 2), Some(0));
    assert_eq!(bv.select(2, 1), None);
}

#[test]
fn bit_vector_select_inverts_rank() {
    let bv = sample();
    for i in 0..bv.len() {
        let bit = bv[i];
        let k = bv.rank(bit, i).unwrap();
        assert!(k >= 1);
        assert_eq!(bv.select(bit, k), Some(i));
    }
}

#[test]
fn bit_vector_rank_inverts_select() {
    let bv = sample();
    for bit in 0..2u8 {
        for k in 1..10usize {
            match bv.select(bit, k) {
                Some(p) => {
                    assert_eq!(bv[p], bit);
                    assert_eq!(bv.rank(bit, p), Some(k));
                }
                None => {
                    assert!(k > bv.rank(bit, bv.len() - 1).unwrap());
                }
            }
        }
    }
}

#[test]
fn bit_vector_views_its_bits() {
    let bv = sample();
    assert_eq!(bv.len(), 9);
    assert_eq!(bv.deref(), &vec![0, 1, 0, 1, 1, 0, 1, 0, 1]);
    assert_eq!(bv[0], 0);
    assert_eq!(bv[1], 1);
    assert_eq!(bv[8], 1);
    assert!(bv == vec![0, 1, 0, 1, 1, 0, 1, 0, 1]);
    assert!(!(bv == vec![0, 1, 0, 1, 1, 0, 1, 0, 0]));
    assert!(!(bv == vec![0, 1, 0]));
}

#[test]
fn bit_vector_set_replaces_one_bit() {
    let mut bv = sample();
    bv.set(0, 1);
    bv.set(8, 0);
    assert_eq!(bv.deref(), &vec![1, 1, 0, 1, 1, 0, 1, 0, 0]);
    assert_eq!(bv.rank(1, 1), Some(2));
    assert_eq!(bv.select(0, 4), Some(8));
}
