use wasabi::allocator::FirstFitAllocator;
use wasabi::allocator::round_up_to_nearest_pow2;
use wasabi::allocator::HEADER_SIZE;
use wasabi::allocator::PAGE_SIZE;
use wasabi::uefi::EfiMemoryDescriptor;
use wasabi::uefi::EfiMemoryType;
use wasabi::uefi::MemoryMapHolder;

/// A memory map with one usable region of `pages` pages at `base`.
fn single_region_map(base: u64, pages: u64) -> MemoryMapHolder {
    let mut map = MemoryMapHolder::new();
    map.add_descriptor(EfiMemoryDescriptor::new(
        EfiMemoryType::CONVENTIONAL_MEMORY,
        base,
        0,
        pages,
        0,
    ));
    map
}

/// An allocator initialized with one usable region of `pages` pages at `base`.
fn allocator_over(base: u64, pages: u64) -> FirstFitAllocator {
    let map = single_region_map(base, pages);
    let mut allocator = FirstFitAllocator::new();
    allocator.init_with_mmap(&map);
    allocator
}

/// Writes `val` over `[addr, addr + len)` of a simulated RAM that models the
/// physical range `[base, base + ram.len())`.
fn write_pattern(ram: &mut Vec<u8>, base: usize, addr: usize, len: usize, val: u8) {
    for k in 0..len {
        ram[addr - base + k] = val;
    }
}

/// Every byte of `[addr, addr + len)` still holds `val`.
fn pattern_intact(ram: &Vec<u8>, base: usize, addr: usize, len: usize, val: u8) -> bool {
    (0..len).all(|k| ram[addr - base + k] == val)
}

#[test]
fn round_up_to_nearest_pow2_tests() {
    assert_eq!(round_up_to_nearest_pow2(0), Err("Out of range"));
    assert_eq!(round_up_to_nearest_pow2(1), Ok(1));
    assert_eq!(round_up_to_nearest_pow2(2), Ok(2));
    assert_eq!(round_up_to_nearest_pow2(3), Ok(4));
    assert_eq!(round_up_to_nearest_pow2(4), Ok(4));
    assert_eq!(round_up_to_nearest_pow2(5), Ok(8));
    assert_eq!(round_up_to_nearest_pow2(6), Ok(8));
    assert_eq!(round_up_to_nearest_pow2(7), Ok(8));
    assert_eq!(round_up_to_nearest_pow2(8), Ok(8));
    assert_eq!(round_up_to_nearest_pow2(9), Ok(16));
}

#[test]
fn round_up_to_nearest_pow2_large_values() {
    assert_eq!(round_up_to_nearest_pow2(1000), Ok(1024));
    assert_eq!(round_up_to_nearest_pow2(1024), Ok(1024));
    assert_eq!(round_up_to_nearest_pow2(1025), Ok(2048));
    let top: usize = 1usize << (usize::BITS - 1);
    assert_eq!(round_up_to_nearest_pow2(top), Ok(top));
    assert_eq!(round_up_to_nearest_pow2(top - 1), Ok(top));
    assert_eq!(round_up_to_nearest_pow2(top + 1), Err("Out of range"));
    assert_eq!(round_up_to_nearest_pow2(usize::MAX), Err("Out of range"));
}

#[test]
fn malloc_align() {
    // 4096 pages = 16 MiB of usable memory.
    let mut allocator = allocator_over(0x100000, 4096);
    for align in [1usize, 2, 4, 8, 16, 32, 4096] {
        for _ in 0..100 {
            let p = allocator
                .alloc_with_options(1234, align)
                .expect("allocation should succeed");
            assert!(p != 0);
            assert!(p % align == 0);
        }
    }
}

#[test]
fn malloc_align_random_order() {
    let mut allocator = allocator_over(0x100000, 4096);
    for align in [32usize, 4096, 8, 4, 16, 2, 1] {
        for _ in 0..100 {
            let p = allocator
                .alloc_with_options(1234, align)
                .expect("allocation should succeed");
            assert!(p != 0);
            assert!(p % align == 0);
        }
    }
}

#[test]
fn malloc_align_reverse_order() {
    let mut allocator = allocator_over(0x100000, 4096);
    for align in [4096usize, 32, 16, 8, 4, 2, 1] {
        for _ in 0..100 {
            let p = allocator
                .alloc_with_options(1234, align)
                .expect("allocation should succeed");
            assert!(p != 0);
            assert!(p % align == 0);
        }
    }
}

#[test]
fn malloc_iterate_free_and_alloc() {
    let mut allocator = allocator_over(0x100000, 4096);
    for i in 1..300usize {
        let p = allocator
            .alloc_with_options(i, 1)
            .expect("allocation should succeed");
        allocator.deallocate(p);
    }
}

#[test]
fn allocated_objects_have_no_overlap() {
    let base: usize = 0x100000;
    let ram_len: usize = 4096 * PAGE_SIZE;
    let mut allocator = allocator_over(base as u64, 4096);
    let mut ram = vec![0u8; ram_len];
    let allocations: Vec<(usize, usize)> = vec![
        (128, 128),
        (32, 32),
        (8, 8),
        (16, 16),
        (6000, 64),
        (4, 4),
        (2, 2),
        (600000, 64),
        (64, 64),
        (1, 1),
        (6000, 64),
        (6000, 64),
        (6000, 64),
        (6000, 64),
        (6000, 64),
        (6000, 64),
        (3, 64),
        (3, 64),
        (3, 64),
        (3, 64),
        (3, 64),
        (3, 64),
        (3, 64),
        (3, 64),
        (3, 64),
        (3, 64),
        (6000, 64),
        (6000, 64),
        (600000, 64),
        (6000, 64),
        (60000, 64),
        (60000, 64),
        (60000, 64),
        (60000, 64),
    ];
    let mut pointers = vec![0usize; allocations.len()];
    for (i, &(size, align)) in allocations.iter().enumerate() {
        let p = allocator
            .alloc_with_options(size, align)
            .expect("allocation should succeed");
        pointers[i] = p;
        write_pattern(&mut ram, base, p, size, i as u8);
    }
    for (i, &(size, _)) in allocations.iter().enumerate() {
        assert!(pattern_intact(&ram, base, pointers[i], size, i as u8));
    }
    for (i, &(size, align)) in allocations.iter().enumerate().step_by(2) {
        let p = allocator
            .alloc_with_options(size, align)
            .expect("allocation should succeed");
        pointers[i] = p;
        write_pattern(&mut ram, base, p, size, i as u8);
    }
    for (i, &(size, _)) in allocations.iter().enumerate() {
        assert!(pattern_intact(&ram, base, pointers[i], size, i as u8));
    }
}

#[test]
fn scenario_two_requests_keep_their_patterns() {
    // A freshly initialized single 1 MiB usable region.
    let base: usize = 0x100000;
    let mut allocator = allocator_over(base as u64, 256);
    let mut ram = vec![0u8; 256 * PAGE_SIZE];
    let p1 = allocator
        .alloc_with_options(128, 128)
        .expect("first allocation should succeed");
    let p2 = allocator
        .alloc_with_options(32, 32)
        .expect("second allocation should succeed");
    assert!(p1 != 0 && p2 != 0);
    assert!(p1 != p2);
    assert!(p1 % 128 == 0);
    assert!(p2 % 32 == 0);
    write_pattern(&mut ram, base, p1, 128, 0xAA);
    write_pattern(&mut ram, base, p2, 32, 0xBB);
    assert!(pattern_intact(&ram, base, p1, 128, 0xAA));
    assert!(pattern_intact(&ram, base, p2, 32, 0xBB));
}

#[test]
fn scenario_exhaustion_returns_null_and_recovers() {
    // 3 pages at physical address 0: after the first-page reservation, one
    // free region of 8192 bytes at address 4096 remains.
    let mut allocator = allocator_over(0, 3);
    assert_eq!(allocator.region_count(), 1);
    let h = allocator.region_at(0);
    assert_eq!(h.addr, 4096);
    assert_eq!(h.size, 8192);
    // 3000 rounds to 4096; the region can provide it (8192 >= 4096 + 2048).
    let p = allocator
        .alloc_with_options(3000, 1)
        .expect("first allocation should fit");
    assert_eq!(p, 8192);
    // The same request again exceeds the remaining capacity: null, no panic.
    assert_eq!(allocator.alloc_with_options(3000, 1), None);
    // A smaller request that fits still succeeds.
    let q = allocator
        .alloc_with_options(100, 1)
        .expect("small allocation should still fit");
    assert!(q != 0);
    assert!(q != p);
}

#[test]
fn freed_memory_is_reused() {
    let mut allocator = allocator_over(0, 3);
    // Carve 4096 bytes from the top of the single 8192-byte region.
    let p = allocator
        .alloc_with_options(3000, 1)
        .expect("first allocation should fit");
    assert_eq!(p, 8192);
    assert_eq!(allocator.region_count(), 2);
    assert!(allocator.region_at(1).is_allocated);
    // 2000 rounds to 2048: too big for the shrunk head region while the
    // carved block is still live...
    assert_eq!(allocator.alloc_with_options(2000, 1), None);
    // ...but after freeing, the same request is served from the freed block.
    allocator.deallocate(p);
    assert!(!allocator.region_at(1).is_allocated);
    assert_eq!(allocator.region_count(), 2);
    let q = allocator
        .alloc_with_options(2000, 1)
        .expect("freed block should be eligible for reuse");
    // Bump-down carve inside the freed block [8160, 12288).
    assert_eq!(q, 10240);
    assert!(q >= p && q < 12288);
}

#[test]
fn alloc_free_alloc_same_size_bounded_chain() {
    let mut allocator = allocator_over(0x100000, 256);
    let initial = allocator.region_count();
    for _ in 0..10 {
        let p = allocator
            .alloc_with_options(3000, 1)
            .expect("allocation should succeed");
        allocator.deallocate(p);
    }
    // Each carve threads at most two fresh regions into the chain and
    // freeing threads none, so ten cycles grow the chain by at most twenty.
    assert!(allocator.region_count() <= initial + 20);
}

#[test]
fn deallocate_clears_the_flag_only() {
    let mut allocator = allocator_over(0x100000, 256);
    let p = allocator
        .alloc_with_options(64, 64)
        .expect("allocation should succeed");
    let count = allocator.region_count();
    let mut live = None;
    for i in 0..count {
        let h = allocator.region_at(i);
        if h.is_allocated && h.addr + HEADER_SIZE == p {
            live = Some((i, h));
        }
    }
    let (i, before) = live.expect("a live region owns the returned pointer");
    allocator.deallocate(p);
    assert_eq!(allocator.region_count(), count);
    let after = allocator.region_at(i);
    assert_eq!(after.addr, before.addr);
    assert_eq!(after.size, before.size);
    assert!(!after.is_allocated);
}

#[test]
fn alloc_on_empty_chain_is_null() {
    let mut allocator = FirstFitAllocator::new();
    assert_eq!(allocator.alloc_with_options(16, 1), None);
}

#[test]
fn zero_size_allocation_is_null() {
    let mut allocator = allocator_over(0x100000, 256);
    assert_eq!(allocator.alloc_with_options(0, 1), None);
}

#[test]
fn init_reserves_first_page_of_address_zero() {
    // One usable descriptor of N pages starting at physical address 0 yields
    // (N - 1) * 4096 allocatable bytes.
    let allocator = allocator_over(0, 256);
    assert_eq!(allocator.region_count(), 1);
    let h = allocator.region_at(0);
    assert_eq!(h.addr, PAGE_SIZE);
    assert_eq!(h.size, 255 * PAGE_SIZE);
    assert!(!h.is_allocated);
}

#[test]
fn init_skips_non_usable_descriptors() {
    let mut map = MemoryMapHolder::new();
    map.add_descriptor(EfiMemoryDescriptor::new(
        EfiMemoryType::RESERVED,
        0x100000,
        0,
        256,
        0,
    ));
    map.add_descriptor(EfiMemoryDescriptor::new(
        EfiMemoryType::BOOT_SERVICES_DATA,
        0x200000,
        0,
        256,
        0,
    ));
    let mut allocator = FirstFitAllocator::new();
    allocator.init_with_mmap(&map);
    assert_eq!(allocator.region_count(), 0);
}

#[test]
fn init_skips_regions_of_at_most_one_page() {
    // One page at address 0 vanishes entirely under the reservation; two
    // pages at address 0 leave exactly one page, still too small; one page
    // elsewhere is also too small.
    for (base, pages) in [(0u64, 1u64), (0, 2), (0x100000, 1)] {
        let allocator = allocator_over(base, pages);
        assert_eq!(allocator.region_count(), 0);
    }
    // Two pages away from address 0 survive.
    let allocator = allocator_over(0x100000, 2);
    assert_eq!(allocator.region_count(), 1);
}

#[test]
fn init_prepends_usable_regions_in_map_order() {
    let mut map = MemoryMapHolder::new();
    map.add_descriptor(EfiMemoryDescriptor::new(
        EfiMemoryType::CONVENTIONAL_MEMORY,
        0x100000,
        0,
        2,
        0,
    ));
    map.add_descriptor(EfiMemoryDescriptor::new(
        EfiMemoryType::LOADER_DATA,
        0x200000,
        0,
        2,
        0,
    ));
    map.add_descriptor(EfiMemoryDescriptor::new(
        EfiMemoryType::CONVENTIONAL_MEMORY,
        0x300000,
        0,
        2,
        0,
    ));
    let mut allocator = FirstFitAllocator::new();
    allocator.init_with_mmap(&map);
    // The chain lists the survivors in reverse map order: first-fit search
    // visits the last-registered usable descriptor first.
    assert_eq!(allocator.region_count(), 2);
    assert_eq!(allocator.region_at(0).addr, 0x300000);
    assert_eq!(allocator.region_at(1).addr, 0x100000);
}

#[test]
fn first_fit_takes_the_first_region_that_fits() {
    let mut map = MemoryMapHolder::new();
    // Registered second, so at the chain head: a small region.
    map.add_descriptor(EfiMemoryDescriptor::new(
        EfiMemoryType::CONVENTIONAL_MEMORY,
        0x100000,
        0,
        64,
        0,
    ));
    map.add_descriptor(EfiMemoryDescriptor::new(
        EfiMemoryType::CONVENTIONAL_MEMORY,
        0x400000,
        0,
        2,
        0,
    ));
    let mut allocator = FirstFitAllocator::new();
    allocator.init_with_mmap(&map);
    assert_eq!(allocator.region_at(0).addr, 0x400000);
    // A request too big for the head region is served from the next one.
    let p = allocator
        .alloc_with_options(32768, 1)
        .expect("the second region fits the request");
    assert!(p >= 0x100000 && p < 0x100000 + 64 * PAGE_SIZE);
    // A small request is served from the head region (first fit).
    let q = allocator
        .alloc_with_options(64, 1)
        .expect("the head region fits the request");
    assert!(q >= 0x400000 && q < 0x400000 + 2 * PAGE_SIZE);
}

#[test]
fn interleaved_alloc_and_free_never_corrupt_live_data() {
    let base: usize = 0x100000;
    let mut allocator = allocator_over(base as u64, 4096);
    let mut ram = vec![0u8; 4096 * PAGE_SIZE];
    // Deterministic pseudo-random request stream.
    let mut state: u64 = 0x2545F4914F6CDD1D;
    let mut live: Vec<(usize, usize, u8)> = Vec::new();
    for round in 0..200u64 {
        state = state.wrapping_mul(6364136223846793005).wrapping_add(1442695040888963407);
        let size = 1 + (state >> 33) as usize % 5000;
        let align = 1usize << ((state >> 20) % 7);
        let pattern = (round % 251) as u8 + 1;
        let p = allocator
            .alloc_with_options(size, align)
            .expect("allocation should succeed");
        assert!(p != 0 && p % align == 0);
        write_pattern(&mut ram, base, p, size, pattern);
        live.push((p, size, pattern));
        if round % 3 == 2 {
            // Free the oldest live allocation.
            let (q, qsize, qpat) = live.remove(0);
            assert!(pattern_intact(&ram, base, q, qsize, qpat));
            allocator.deallocate(q);
        }
        for &(q, qsize, qpat) in live.iter() {
            assert!(pattern_intact(&ram, base, q, qsize, qpat));
        }
    }
}

#[test]
fn carve_placement_is_bump_down_from_the_top() {
    // Region [4096, 12288). Requesting 1 byte at alignment 1 normalizes to
    // size 32 at alignment 32: the payload lands at end - 32 = 12256, never
    // at the region's start.
    let mut allocator = allocator_over(0, 3);
    let p = allocator
        .alloc_with_options(1, 1)
        .expect("allocation should succeed");
    assert_eq!(p, 12256);
    // The next carve comes from below the previous block's header.
    let q = allocator
        .alloc_with_options(1, 1)
        .expect("allocation should succeed");
    assert_eq!(q, 12192);
}
