use axstd::bump::{AllocError, EarlyAllocator};

#[test]
fn fresh_allocator_is_empty() {
    let a: EarlyAllocator<4096> = EarlyAllocator::new();
    assert_eq!(a.total_bytes(), 0);
    assert_eq!(a.used_bytes(), 0);
    assert_eq!(a.available_bytes(), 0);
    assert_eq!(a.total_pages(), 0);
}

#[test]
fn bytes_are_aligned_from_the_front() {
    let mut a: EarlyAllocator<4096> = EarlyAllocator::new();
    a.init(0x1001, 0x10000);
    assert_eq!(a.total_bytes(), 0x10000);
    assert_eq!(a.alloc_bytes(8, 16), Ok(0x1010));
    assert_eq!(a.used_bytes(), 0x1018 - 0x1001);
    assert_eq!(a.alloc_bytes(4, 8), Ok(0x1018));
    assert_eq!(a.alloc_bytes(1, 1), Ok(0x101c));
}

#[test]
fn byte_area_is_freed_when_count_drops_to_zero() {
    let mut a: EarlyAllocator<4096> = EarlyAllocator::new();
    a.init(0x8000, 0x4000);
    a.alloc_bytes(100, 8).unwrap();
    a.alloc_bytes(100, 8).unwrap();
    a.dealloc_bytes();
    assert!(a.used_bytes() > 0);
    a.dealloc_bytes();
    assert_eq!(a.used_bytes(), 0);
}

#[test]
fn pages_come_from_the_back() {
    let mut a: EarlyAllocator<4096> = EarlyAllocator::new();
    a.init(0x10000, 0x10000);
    assert_eq!(a.total_pages(), 16);
    assert_eq!(a.alloc_pages(2), Ok(0x20000 - 0x2000));
    assert_eq!(a.used_pages(), 2);
    assert_eq!(a.available_pages(), 14);
}

#[test]
fn the_two_areas_do_not_overlap() {
    let mut a: EarlyAllocator<4096> = EarlyAllocator::new();
    a.init(0x10000, 0x4000);
    assert_eq!(a.alloc_pages(3), Ok(0x11000));
    assert_eq!(a.alloc_bytes(0x1000, 8), Ok(0x10000));
    assert_eq!(a.alloc_bytes(1, 1), Err(AllocError::NoMemory));
    assert_eq!(a.alloc_pages(1), Err(AllocError::NoMemory));
    assert_eq!(a.available_bytes(), 0);
}

#[test]
fn allocation_at_address_zero_fails() {
    let mut a: EarlyAllocator<4096> = EarlyAllocator::new();
    a.init(0, 0x100);
    assert_eq!(a.alloc_bytes(8, 8), Err(AllocError::NoMemory));
    assert_eq!(a.used_bytes(), 8);
}

#[test]
fn alignment_that_would_overflow_fails() {
    let mut a: EarlyAllocator<4096> = EarlyAllocator::new();
    a.init(usize::MAX, 0);
    assert_eq!(a.alloc_bytes(0, 1), Err(AllocError::NoMemory));
    assert_eq!(a.used_bytes(), 0);
}
