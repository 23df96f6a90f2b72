use axstd::hasher::{bucket_index, SimpleHasher};
use axstd::key::{le_bytes_of, HashKey};

#[test]
fn key_bytes_are_little_endian() {
    assert_eq!(0x0102u64.hash_bytes(), vec![2, 1, 0, 0, 0, 0, 0, 0]);
    assert_eq!(0xAABBCCDDu32.hash_bytes(), vec![0xDD, 0xCC, 0xBB, 0xAA]);
    assert_eq!(7usize.hash_bytes(), vec![7, 0, 0, 0, 0, 0, 0, 0]);
    assert_eq!(le_bytes_of(0x0304, 2), vec![4, 3]);
    assert_eq!(0xABu8.hash_bytes(), vec![0xAB]);
    assert_eq!(0x1234u16.hash_bytes(), vec![0x34, 0x12]);
    assert_eq!((-1i32).hash_bytes(), vec![0xFF; 4]);
    assert_eq!((-2i64).hash_bytes(), vec![0xFE, 0xFF, 0xFF, 0xFF, 0xFF, 0xFF, 0xFF, 0xFF]);
    assert_eq!(3isize.hash_bytes(), vec![3, 0, 0, 0, 0, 0, 0, 0]);
    assert!(5u64.key_eq(&5));
    assert!(!5u64.key_eq(&6));
}

#[test]
fn hasher_multiplies_by_thirty_one_and_adds() {
    let mut h = SimpleHasher::new(7);
    h.write(&vec![1]);
    assert_eq!(h.finish(), 7 * 31 + 1);
    h.write(&vec![2, 3]);
    assert_eq!(h.finish(), ((7 * 31 + 1) * 31 + 2) * 31 + 3);
}

#[test]
fn hasher_wraps_at_two_to_the_sixty_four() {
    let mut h = SimpleHasher::new(u64::MAX);
    h.write(&vec![0]);
    assert_eq!(h.finish(), u64::MAX - 30);
}

#[test]
fn bucket_index_is_hash_modulo_capacity() {
    assert_eq!(bucket_index(0, &vec![1, 2], 16), 33 % 16);
    assert_eq!(bucket_index(5, &vec![], 3), 2);
    assert_eq!(bucket_index(0, &vec![1, 2], 1), 0);
}
