use interceptor::remote_mem::RemoteMem;
use interceptor::MEM_BLOCK_SIZE;

#[test]
fn fresh_region_allocates_from_base() {
    let mut m = RemoteMem::new(0x1000);
    assert_eq!(m.allocate(4), Some(0x1000));
    assert_eq!(m.allocate(4), Some(0x1004));
    assert_eq!(m.allocate(8), Some(0x1008));
}

#[test]
fn whole_block_allocation_succeeds() {
    // a string of exactly the block size (NUL included) is accepted
    let mut m = RemoteMem::new(0x2000);
    assert_eq!(m.allocate(MEM_BLOCK_SIZE), Some(0x2000));
}

#[test]
fn oversized_allocation_is_refused() {
    // one byte over the block size is a fatal error for the tracer
    let mut m = RemoteMem::new(0x2000);
    assert_eq!(m.allocate(MEM_BLOCK_SIZE + 1), None);
    // the region is untouched: the next allocation still starts at the base
    assert_eq!(m.allocate(1), Some(0x2000));
}

#[test]
fn allocations_beyond_the_block_wrap() {
    // allocations totalling more than the block size wrap to the base and
    // every address stays inside [base, base + MEM_BLOCK_SIZE)
    let base = 0x7f00_0000_0000u64;
    let mut m = RemoteMem::new(base);
    let a1 = m.allocate(5000).unwrap();
    // 5000 + 5000 exceeds the block: the second allocation wraps to the
    // base, overwriting the first, which is fine because each one is
    // consumed within its own syscall stop
    let a2 = m.allocate(5000).unwrap();
    let a3 = m.allocate(100).unwrap();
    assert_eq!(a1, base);
    assert_eq!(a2, base);
    assert_eq!(a3, base + 5000);
    for (a, size) in [(a1, 5000), (a2, 5000), (a3, 100)] {
        assert!(a >= base && a < base + MEM_BLOCK_SIZE);
        assert!(a + size <= base + MEM_BLOCK_SIZE);
    }
}

#[test]
fn allocation_after_exact_fill_wraps_to_base() {
    // filling the block exactly is fine; the next allocation cannot fit
    // after it, so it wraps to the base rather than escaping the block
    let base = 0x3000u64;
    let mut m = RemoteMem::new(base);
    assert_eq!(m.allocate(MEM_BLOCK_SIZE), Some(base));
    assert_eq!(m.allocate(1), Some(base));
    assert_eq!(m.allocate(2), Some(base + 1));
}
