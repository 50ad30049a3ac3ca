use primes_rs::segment::{Bits, MappedBitVec};

fn collect(x: MappedBitVec) -> Vec<usize> {
    let mut it = x.into_iter();
    let mut out = Vec::new();
    while let Some(v) = it.next() {
        out.push(v);
    }
    out
}

#[test]
fn test_new() {
    let x = MappedBitVec::new(Bits::repeat(true, 5), 7, 1).to_vec();
    assert_eq!(vec![1, 8, 15, 22, 29], x);
}

#[test]
fn test_len() {
    let x = MappedBitVec::new(Bits::repeat(true, 5), 7, 1);
    assert_eq!(5, x.len());
}

#[test]
fn test_is_empty() {
    let x = MappedBitVec::new(Bits::repeat(true, 5), 7, 1);
    assert!(!x.is_empty());

    let x = MappedBitVec::new(Bits::repeat(true, 0), 7, 1);
    assert!(x.is_empty());
}

#[test]
fn test_set() {
    let mut x = MappedBitVec::new(Bits::repeat(true, 5), 7, 1);
    x.set(2, false);
    assert_eq!(vec![1, 8, 22, 29], x.to_vec());
}

#[test]
fn test_get() {
    let x = MappedBitVec::new(Bits::repeat(true, 5), 7, 1);
    assert_eq!(1, x.get(0));
    assert_eq!(8, x.get(1));
    assert_eq!(15, x.get(2));
    assert_eq!(22, x.get(3));
    assert_eq!(29, x.get(4));

    let x = MappedBitVec::new(Bits::repeat(true, 34), 30, 31);
    assert_eq!(961, x.get(31));
}

#[test]
fn test_first_one() {
    let mut x = MappedBitVec::new(Bits::repeat(true, 5), 7, 1);
    x.set(2, false);
    assert_eq!(Some((0, 1)), x.first_one(0));
    assert_eq!(Some((1, 8)), x.first_one(1));
    assert_eq!(Some((3, 22)), x.first_one(2));
    assert_eq!(Some((3, 22)), x.first_one(3));
    assert_eq!(Some((4, 29)), x.first_one(4));
    assert_eq!(None, x.first_one(5));
}

#[test]
fn test_into_iter() {
    let x = MappedBitVec::new(Bits::repeat(true, 5), 7, 1);
    let x: Vec<usize> = collect(x);
    assert_eq!(vec![1, 8, 15, 22, 29], x);
}

#[test]
fn first_one_past_the_end_is_none() {
    let x = MappedBitVec::new(Bits::repeat(true, 3), 30, 7);
    assert_eq!(None, x.first_one(3));
    assert_eq!(None, x.first_one(100));
}

#[test]
fn all_false_bits_are_empty() {
    let x = MappedBitVec::new(Bits::repeat(false, 4), 30, 7);
    assert_eq!(4, x.max_len());
    assert_eq!(0, x.len());
    assert!(x.is_empty());
    assert_eq!(None, x.first_one(0));
    assert_eq!(Vec::<usize>::new(), x.to_vec());
}

#[test]
fn clears_then_first_one_finds_smallest_remaining() {
    let mut x = MappedBitVec::new(Bits::repeat(true, 6), 30, 11);
    x.set(0, false);
    assert_eq!(Some((1, 41)), x.first_one(0));
    x.set(1, false);
    x.set(3, false);
    assert_eq!(Some((2, 71)), x.first_one(0));
    assert_eq!(Some((4, 131)), x.first_one(3));
    assert_eq!(vec![71, 131, 161], x.to_vec());
    assert_eq!(3, x.len());
    assert_eq!(6, x.max_len());
}

#[test]
fn clearing_twice_changes_nothing_more() {
    let mut x = MappedBitVec::new(Bits::repeat(true, 5), 30, 7);
    x.set(2, false);
    let once = x.to_vec();
    x.set(2, false);
    assert_eq!(once, x.to_vec());
    assert_eq!(vec![7, 37, 97, 127], x.to_vec());
}

#[test]
fn clear_out_of_range_is_a_no_op() {
    let mut x = MappedBitVec::new(Bits::repeat(true, 3), 30, 13);
    x.clear(3);
    x.clear(1000);
    assert_eq!(vec![13, 43, 73], x.to_vec());
    x.clear(1);
    x.clear(1);
    assert_eq!(vec![13, 73], x.to_vec());
    assert_eq!(2, x.len());
}

#[test]
fn set_out_of_range_is_a_no_op() {
    let mut x = MappedBitVec::new(Bits::repeat(true, 3), 30, 7);
    x.set(3, false);
    x.set(99, false);
    assert_eq!(vec![7, 37, 67], x.to_vec());
    x.set(1, false);
    x.set(1, true);
    assert_eq!(vec![7, 37, 67], x.to_vec());
}
