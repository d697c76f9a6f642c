use bump_allocator::{AllocError, EarlyAllocator};

const PAGE: usize = 4096;

fn arena(start: usize, size: usize) -> EarlyAllocator<PAGE> {
    let mut a = EarlyAllocator::<PAGE>::new();
    a.init(start, size);
    a
}

#[test]
fn new_arena_is_empty() {
    let a = EarlyAllocator::<PAGE>::new();
    assert_eq!(a.total_bytes(), 0);
    assert_eq!(a.used_bytes(), 0);
    assert_eq!(a.available_bytes(), 0);
    assert_eq!(a.total_pages(), 0);
    assert_eq!(a.used_pages(), 0);
    assert_eq!(a.available_pages(), 0);
    assert_eq!(a.live_allocations(), 0);
}

#[test]
fn new_arena_has_no_room() {
    let mut a = EarlyAllocator::<PAGE>::new();
    assert_eq!(a.alloc_bytes(1, 1), Err(AllocError::NoMemory));
    assert_eq!(a.alloc_pages(1, PAGE), Err(AllocError::NoMemory));
    assert_eq!(a.alloc_bytes(0, 1), Ok(0));
}

#[test]
fn init_sets_the_range() {
    let a = arena(0x1000, 0x8000);
    assert_eq!(a.total_bytes(), 0x8000);
    assert_eq!(a.used_bytes(), 0);
    assert_eq!(a.available_bytes(), 0x8000);
    assert_eq!(a.total_pages(), 8);
    assert_eq!(a.used_pages(), 0);
    assert_eq!(a.available_pages(), 8);
    assert_eq!(a.live_allocations(), 0);
}

#[test]
fn init_again_resets() {
    let mut a = arena(0x1000, 0x8000);
    assert_eq!(a.alloc_bytes(100, 4), Ok(0x1000));
    assert_eq!(a.alloc_pages(2, PAGE), Ok(0x7000));
    a.init(0x2000, 0x3000);
    assert_eq!(a.total_bytes(), 0x3000);
    assert_eq!(a.used_bytes(), 0);
    assert_eq!(a.used_pages(), 0);
    assert_eq!(a.total_pages(), 3);
    assert_eq!(a.live_allocations(), 0);
    assert_eq!(a.alloc_bytes(1, 1), Ok(0x2000));
}

#[test]
fn three_byte_allocations_then_three_releases() {
    let mut a = arena(0, 64);
    assert_eq!(a.alloc_bytes(8, 8), Ok(0));
    assert_eq!(a.alloc_bytes(8, 8), Ok(8));
    assert_eq!(a.alloc_bytes(8, 8), Ok(16));
    assert_eq!(a.used_bytes(), 24);
    a.dealloc_bytes(0, 8, 8);
    a.dealloc_bytes(8, 8, 8);
    assert_eq!(a.used_bytes(), 24);
    a.dealloc_bytes(16, 8, 8);
    assert_eq!(a.used_bytes(), 0);
}

#[test]
fn one_page_leaves_no_bytes() {
    let mut a = arena(0, 4096);
    assert_eq!(a.alloc_pages(1, 4096), Ok(0));
    assert_eq!(a.alloc_bytes(1, 1), Err(AllocError::NoMemory));
    assert_eq!(a.total_bytes(), 0);
    assert_eq!(a.available_bytes(), 0);
    assert_eq!(a.used_pages(), 1);
    assert_eq!(a.available_pages(), 0);
}

#[test]
fn byte_allocation_rounds_up_to_the_alignment() {
    let mut a = arena(3, 100);
    assert_eq!(a.alloc_bytes(5, 8), Ok(8));
    assert_eq!(a.used_bytes(), 10);
    assert_eq!(a.alloc_bytes(1, 1), Ok(13));
    assert_eq!(a.alloc_bytes(2, 16), Ok(16));
    assert_eq!(a.alloc_bytes(4, 4), Ok(20));
    assert_eq!(a.alloc_bytes(1, 64), Ok(64));
    assert_eq!(a.used_bytes(), 62);
    assert_eq!(a.available_bytes(), 38);
    assert_eq!(a.live_allocations(), 5);
}

#[test]
fn byte_allocation_is_aligned_and_inside() {
    let mut a = arena(0x1003, 0x1000);
    let mut align = 1;
    while align <= 256 {
        let before = a.used_bytes() + 0x1003;
        let addr = a.alloc_bytes(3, align).unwrap();
        assert_eq!(addr % align, 0);
        assert!(addr >= 0x1003);
        assert!(addr >= before);
        assert!(addr < before + align);
        assert_eq!(a.used_bytes() + 0x1003, addr + 3);
        assert!(a.used_bytes() <= a.total_bytes());
        align *= 2;
    }
}

#[test]
fn byte_allocation_may_fill_the_arena_exactly() {
    let mut a = arena(0, 64);
    assert_eq!(a.alloc_bytes(64, 1), Ok(0));
    assert_eq!(a.available_bytes(), 0);
    assert_eq!(a.alloc_bytes(0, 64), Ok(64));
    assert_eq!(a.alloc_bytes(1, 1), Err(AllocError::NoMemory));
}

#[test]
fn refused_byte_allocation_changes_nothing() {
    let mut a = arena(0, 64);
    assert_eq!(a.alloc_bytes(10, 2), Ok(0));
    assert_eq!(a.alloc_bytes(55, 1), Err(AllocError::NoMemory));
    assert_eq!(a.alloc_bytes(1, 128), Err(AllocError::NoMemory));
    assert_eq!(a.used_bytes(), 10);
    assert_eq!(a.available_bytes(), 54);
    assert_eq!(a.total_bytes(), 64);
    assert_eq!(a.live_allocations(), 1);
    assert_eq!(a.alloc_bytes(54, 1), Ok(10));
}

#[test]
fn byte_allocation_beyond_the_address_space_is_refused() {
    let mut a = arena(usize::MAX - 10, 10);
    assert_eq!(a.alloc_bytes(1, 16), Err(AllocError::NoMemory));
    assert_eq!(a.alloc_bytes(usize::MAX, 1), Err(AllocError::NoMemory));
    assert_eq!(a.alloc_bytes(11, 1), Err(AllocError::NoMemory));
    assert_eq!(a.used_bytes(), 0);
    assert_eq!(a.alloc_bytes(10, 1), Ok(usize::MAX - 10));
    assert_eq!(a.used_bytes(), 10);
}

#[test]
fn releases_in_any_order_empty_the_byte_zone_at_the_last() {
    let mut a = arena(0x100, 0x100);
    let x = a.alloc_bytes(7, 1).unwrap();
    let y = a.alloc_bytes(9, 4).unwrap();
    let z = a.alloc_bytes(1, 32).unwrap();
    let top = a.used_bytes();
    assert_eq!((x, y, z), (0x100, 0x108, 0x120));
    assert_eq!(top, 0x21);
    a.dealloc_bytes(z, 1, 32);
    assert_eq!(a.used_bytes(), top);
    a.dealloc_bytes(x, 7, 1);
    assert_eq!(a.used_bytes(), top);
    assert_eq!(a.live_allocations(), 1);
    a.dealloc_bytes(y, 9, 4);
    assert_eq!(a.used_bytes(), 0);
    assert_eq!(a.live_allocations(), 0);
    assert_eq!(a.alloc_bytes(1, 1), Ok(0x100));
}

#[test]
fn release_with_nothing_live_stays_at_zero() {
    let mut a = arena(0x100, 0x100);
    a.dealloc_bytes(0x100, 1, 1);
    a.dealloc_bytes(0, 0, 1);
    assert_eq!(a.live_allocations(), 0);
    assert_eq!(a.used_bytes(), 0);
    assert_eq!(a.alloc_bytes(4, 4), Ok(0x100));
    assert_eq!(a.live_allocations(), 1);
    a.dealloc_bytes(0x100, 4, 4);
    assert_eq!(a.used_bytes(), 0);
}

#[test]
fn partial_release_reclaims_nothing() {
    let mut a = arena(0, 32);
    assert_eq!(a.alloc_bytes(16, 1), Ok(0));
    assert_eq!(a.alloc_bytes(16, 1), Ok(16));
    a.dealloc_bytes(0, 16, 1);
    assert_eq!(a.alloc_bytes(1, 1), Err(AllocError::NoMemory));
    a.dealloc_bytes(16, 16, 1);
    assert_eq!(a.alloc_bytes(32, 1), Ok(0));
}

#[test]
fn pages_come_from_the_high_end() {
    let mut a = arena(0x1000, 0x10000);
    assert_eq!(a.alloc_pages(2, PAGE), Ok(0xf000));
    assert_eq!(a.used_pages(), 2);
    assert_eq!(a.available_pages(), 14);
    assert_eq!(a.total_pages(), 16);
    assert_eq!(a.total_bytes(), 0xe000);
    assert_eq!(a.alloc_pages(1, PAGE), Ok(0xe000));
    assert_eq!(a.alloc_pages(0, PAGE), Ok(0xe000));
    assert_eq!(a.used_pages(), 3);
}

#[test]
fn page_allocation_rounds_the_cursor_down() {
    let mut a = arena(0x100, 0x5f00);
    assert_eq!(a.alloc_pages(1, 0x4000), Ok(0x3000));
    assert_eq!(a.used_pages(), 3);
    assert_eq!(a.alloc_pages(1, 0x2000), Ok(0x1000));
    assert_eq!(a.alloc_pages(1, 0x1000), Err(AllocError::NoMemory));
    assert_eq!(a.available_bytes(), 0xf00);
    assert_eq!(a.available_pages(), 0);
}

#[test]
fn page_base_is_aligned_when_the_run_is_a_multiple_of_the_alignment() {
    let mut a = arena(0, 0x20000);
    let base = a.alloc_pages(4, 0x4000).unwrap();
    assert_eq!(base, 0x1c000);
    assert_eq!(base % 0x4000, 0);
    let base = a.alloc_pages(2, 0x2000).unwrap();
    assert_eq!(base, 0x1a000);
    assert_eq!(base % 0x2000, 0);
    let base = a.alloc_pages(1, 0x4000).unwrap();
    assert_eq!(base, 0x17000);
    assert_eq!((base + PAGE) % 0x4000, 0);
}

#[test]
fn page_runs_do_not_overlap() {
    let mut a = arena(0x800, 0x40000);
    let mut runs: Vec<(usize, usize)> = Vec::new();
    let mut top = 0x40800;
    for (pages, align) in [(1, 0x1000), (3, 0x2000), (2, 0x1000), (1, 0x8000), (5, 0x1000)] {
        let byte_pos = 0x800 + a.used_bytes();
        let base = a.alloc_pages(pages, align).unwrap();
        assert!(byte_pos <= base);
        assert!(base + pages * PAGE <= top);
        assert_eq!((base + pages * PAGE) % align, 0);
        for &(other, extent) in runs.iter() {
            assert!(base + pages * PAGE <= other);
            assert!(other + extent <= 0x40800);
        }
        runs.push((base, pages * PAGE));
        top = base;
        assert_eq!(a.alloc_bytes(24, 8).map(|addr| addr % 8), Ok(0));
    }
    assert_eq!(runs[0].0, 0x3f000);
    assert_eq!(runs[1].0, 0x3b000);
    assert_eq!(runs[2].0, 0x39000);
    assert_eq!(runs[3].0, 0x37000);
    assert_eq!(runs[4].0, 0x32000);
}

#[test]
fn refused_page_allocation_changes_nothing() {
    let mut a = arena(0x1000, 0x4000);
    assert_eq!(a.alloc_bytes(0x1001, 1), Ok(0x1000));
    assert_eq!(a.alloc_pages(3, PAGE), Err(AllocError::NoMemory));
    assert_eq!(a.alloc_pages(1, 0x8000), Err(AllocError::NoMemory));
    assert_eq!(a.alloc_pages(usize::MAX, PAGE), Err(AllocError::NoMemory));
    assert_eq!(a.alloc_pages(usize::MAX / PAGE, PAGE), Err(AllocError::NoMemory));
    assert_eq!(a.used_pages(), 0);
    assert_eq!(a.total_bytes(), 0x4000);
    assert_eq!(a.available_bytes(), 0x2fff);
    assert_eq!(a.used_bytes(), 0x1001);
    assert_eq!(a.alloc_pages(2, PAGE), Ok(0x3000));
}

#[test]
fn bytes_and_pages_meet_in_the_middle() {
    let mut a = arena(0, 0x3000);
    assert_eq!(a.alloc_pages(1, PAGE), Ok(0x2000));
    assert_eq!(a.alloc_bytes(0x1800, 8), Ok(0));
    assert_eq!(a.alloc_pages(1, PAGE), Err(AllocError::NoMemory));
    assert_eq!(a.alloc_bytes(0x801, 1), Err(AllocError::NoMemory));
    assert_eq!(a.alloc_bytes(0x800, 1), Ok(0x1800));
    assert_eq!(a.available_bytes(), 0);
    assert_eq!(a.used_bytes(), a.total_bytes());
}

#[test]
fn pages_stay_after_the_bytes_are_released() {
    let mut a = arena(0, 0x4000);
    assert_eq!(a.alloc_pages(1, PAGE), Ok(0x3000));
    assert_eq!(a.alloc_bytes(16, 16), Ok(0));
    a.dealloc_bytes(0, 16, 16);
    assert_eq!(a.used_bytes(), 0);
    assert_eq!(a.used_pages(), 1);
    assert_eq!(a.total_bytes(), 0x3000);
}

#[test]
fn counts_of_pages_round_down() {
    let mut a = arena(0x10, 0x2ff0);
    assert_eq!(a.total_pages(), 2);
    assert_eq!(a.available_pages(), 2);
    assert_eq!(a.alloc_bytes(0xff1, 1), Ok(0x10));
    assert_eq!(a.available_pages(), 1);
    assert_eq!(a.used_pages(), 0);
}

#[test]
fn a_page_size_of_one_counts_bytes() {
    let mut a = EarlyAllocator::<1>::new();
    a.init(10, 20);
    assert_eq!(a.total_pages(), 20);
    assert_eq!(a.alloc_pages(5, 4), Ok(23));
    assert_eq!(a.used_pages(), 7);
    assert_eq!(a.available_pages(), 13);
}

#[test]
fn adding_memory_is_unsupported() {
    let mut a = arena(0x1000, 0x1000);
    assert_eq!(a.alloc_bytes(8, 8), Ok(0x1000));
    assert_eq!(a.add_memory(0x2000, 0x1000), Err(AllocError::Unsupported));
    assert_eq!(a.total_bytes(), 0x1000);
    assert_eq!(a.total_pages(), 1);
    assert_eq!(a.used_bytes(), 8);
}

#[test]
fn releasing_pages_is_unsupported() {
    let mut a = arena(0x1000, 0x2000);
    assert_eq!(a.alloc_pages(1, PAGE), Ok(0x2000));
    assert_eq!(a.dealloc_pages(0x2000, 1), Err(AllocError::Unsupported));
    assert_eq!(a.used_pages(), 1);
    assert_eq!(a.available_pages(), 1);
    assert_eq!(a.alloc_pages(1, PAGE), Ok(0x1000));
}

#[test]
fn cursors_stay_in_order() {
    let mut a = arena(0x123, 0x3000);
    let requests: [(usize, usize); 8] =
        [(1, 1), (100, 64), (0x1000, 8), (0, 2), (0x2000, 4), (7, 1024), (0x800, 1), (0x800, 1)];
    for (i, (size, align)) in requests.into_iter().enumerate() {
        let _ = a.alloc_bytes(size, align);
        if i % 3 == 1 {
            let _ = a.alloc_pages(1, PAGE);
        }
        assert!(a.used_bytes() <= a.total_bytes());
        assert_eq!(a.used_bytes() + a.available_bytes(), a.total_bytes());
        assert!(a.total_bytes() <= 0x3000);
    }
}

#[test]
fn page_size_is_the_type_parameter() {
    assert_eq!(EarlyAllocator::<PAGE>::page_size(), 4096);
    assert_eq!(EarlyAllocator::<1>::page_size(), 1);
}

#[test]
fn errors_compare_and_print() {
    assert_ne!(AllocError::NoMemory, AllocError::Unsupported);
    let error = AllocError::NoMemory;
    let copy = error;
    assert_eq!(error, copy);
    assert_eq!(format!("{:?}", AllocError::Unsupported), "Unsupported");
}
