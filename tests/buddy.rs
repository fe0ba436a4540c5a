use kernel_core::memory::addr::PhysAddr;
use kernel_core::memory::kmem::{
    align_down, align_up, allocate_pages, free_pages, initialize, memory_stats, AllocError,
    BuddyAllocator, MAX_ORDER, MEMORY_START, PAGE_SIZE,
};
use kernel_core::multiboot::{MultibootMmapEntry, MultibootMmapEntryType};
use kernel_core::sync::oncelock::OnceLock;

fn region(addr: u64, len: u64, entry_type: MultibootMmapEntryType) -> MultibootMmapEntry {
    MultibootMmapEntry { size: 20, addr, len, entry_type }
}

fn available(addr: u64, len: u64) -> MultibootMmapEntry {
    region(addr, len, MultibootMmapEntryType::Available)
}

fn allocator(start: usize, end: usize) -> BuddyAllocator {
    let pages = (end - start) / PAGE_SIZE;
    BuddyAllocator::new(PhysAddr(start), PhysAddr(end), vec![0u32; pages / 32 + 1])
}

fn lists(a: &BuddyAllocator) -> Vec<Vec<usize>> {
    (0..=MAX_ORDER).map(|o| a.free_list(o)).collect()
}

fn conserved(a: &BuddyAllocator) -> bool {
    a.allocated_pages() + a.free_pages() == a.total_pages()
}

#[test]
fn two_page_region_gives_one_order_one_block() {
    let mut a = allocator(0, 0x2000);
    a.initialize(&[available(0, 0x2000)]);
    assert_eq!(a.free_list(1), vec![0x0]);
    for o in 0..=MAX_ORDER {
        if o != 1 {
            assert!(a.free_list(o).is_empty());
        }
    }
    assert_eq!(a.total_pages(), 2);
    assert_eq!(a.free_pages(), 2);
}

#[test]
fn two_page_region_splits_and_recombines() {
    let mut a = allocator(0, 0x2000);
    a.initialize(&[available(0, 0x2000)]);
    assert_eq!(a.allocate(0), Ok(PhysAddr(0x0)));
    assert_eq!(a.free_list(0), vec![0x1000]);
    assert!(a.free_list(1).is_empty());
    assert_eq!(a.allocate(0), Ok(PhysAddr(0x1000)));
    assert_eq!(a.allocate(0), Err(AllocError::OutOfMemory));
    a.free(PhysAddr(0x1000), 0);
    a.free(PhysAddr(0x0), 0);
    assert_eq!(a.free_list(1), vec![0x0]);
    assert!(a.free_list(0).is_empty());
    assert_eq!(a.free_pages(), 2);
}

#[test]
fn unaligned_region_start_is_rounded_up() {
    let mut a = allocator(0, 0x3000);
    a.initialize(&[available(0x1001, 0x3000 - 0x1001)]);
    assert_eq!(a.free_pages(), 1);
    assert_eq!(a.free_list(0), vec![0x2000]);
    assert_eq!(a.allocate(0), Ok(PhysAddr(0x2000)));
    assert_eq!(a.allocate(0), Err(AllocError::OutOfMemory));
}

#[test]
fn initialize_twice_changes_nothing() {
    let entries = [available(0, 0x9000), available(0x10000, 0x5000)];
    let mut once = allocator(0, 0x20000);
    once.initialize(&entries);
    let mut twice = allocator(0, 0x20000);
    twice.initialize(&entries);
    twice.initialize(&entries);
    assert_eq!(lists(&once), lists(&twice));
    assert_eq!(once.allocated_pages(), twice.allocated_pages());
    for i in 0..once.total_pages() {
        assert_eq!(once.is_page_allocated(i), twice.is_page_allocated(i));
    }
}

#[test]
fn initialize_cuts_regions_into_aligned_blocks() {
    let mut a = allocator(0, 0x20000);
    a.initialize(&[
        available(0x3000, 0x7000),
        region(0xA000, 0x2000, MultibootMmapEntryType::Reserved),
    ]);
    // [0x3000, 0xA000): 0x3000 (1 page), 0x4000 (4 pages), 0x8000 (2 pages)
    assert_eq!(a.free_list(0), vec![0x3000]);
    assert_eq!(a.free_list(2), vec![0x4000]);
    assert_eq!(a.free_list(1), vec![0x8000]);
    assert_eq!(a.free_pages(), 7);
    assert!(a.is_page_allocated(0xA));
    assert!(!a.is_page_allocated(0x3));
}

#[test]
fn regions_are_clipped_to_the_managed_range() {
    let mut a = allocator(0x2000, 0x6000);
    a.initialize(&[available(0, 0x10000)]);
    assert_eq!(a.free_list(1), vec![0x2000, 0x4000]);
    assert_eq!(a.free_pages(), 4);
}

#[test]
fn largest_block_is_capped_at_max_order() {
    let size = (PAGE_SIZE << MAX_ORDER) * 2;
    let mut a = allocator(0, size);
    a.initialize(&[available(0, size as u64)]);
    assert_eq!(a.free_list(MAX_ORDER), vec![0, PAGE_SIZE << MAX_ORDER]);
    assert_eq!(a.allocate(MAX_ORDER), Ok(PhysAddr(PAGE_SIZE << MAX_ORDER)));
    a.free(PhysAddr(PAGE_SIZE << MAX_ORDER), MAX_ORDER);
    assert_eq!(a.free_list(MAX_ORDER).len(), 2);
}

#[test]
fn conservation_after_every_operation() {
    let mut a = allocator(0, 0x40000);
    assert!(conserved(&a));
    a.initialize(&[available(0x1000, 0x30000)]);
    assert!(conserved(&a));
    let mut got = Vec::new();
    for order in [0usize, 3, 1, 2, 0] {
        if let Ok(p) = a.allocate(order) {
            got.push((p, order));
        }
        assert!(conserved(&a));
    }
    for (p, order) in got {
        a.free(p, order);
        assert!(conserved(&a));
    }
}

#[test]
fn round_trip_restores_stats() {
    for order in 0..=4usize {
        let mut a = allocator(0, 0x40000);
        a.initialize(&[available(0, 0x40000)]);
        let before = (a.total_pages(), a.allocated_pages(), a.free_pages());
        let p = a.allocate(order).unwrap();
        assert_eq!(a.allocated_pages(), before.1 + (1 << order));
        a.free(p, order);
        assert_eq!((a.total_pages(), a.allocated_pages(), a.free_pages()), before);
    }
}

#[test]
fn allocations_are_aligned() {
    let mut a = allocator(0, 0x80000);
    a.initialize(&[available(0x1000, 0x7F000)]);
    for order in [0usize, 2, 1, 3, 0, 4, 2] {
        let p = a.allocate(order).unwrap();
        assert_eq!(p.inner() % (PAGE_SIZE << order), 0);
    }
}

#[test]
fn buddies_coalesce_in_either_order() {
    for first_low in [true, false] {
        let mut a = allocator(0, 0x4000);
        a.initialize(&[available(0, 0x4000)]);
        let x = a.allocate(1).unwrap();
        let y = a.allocate(1).unwrap();
        assert_eq!(x.inner() ^ y.inner(), 0x2000);
        let (p, q) = if first_low { (x, y) } else { (y, x) };
        a.free(p, 1);
        a.free(q, 1);
        assert_eq!(a.free_list(2), vec![0]);
        assert!(a.free_list(1).is_empty());
    }
}

#[test]
fn exhaustion_is_stable() {
    let mut a = allocator(0, 0x8000);
    a.initialize(&[available(0, 0x5000)]);
    let mut n = 0;
    while a.allocate(0).is_ok() {
        n += 1;
    }
    assert_eq!(n, 5);
    assert_eq!(a.free_pages(), 0);
    let snapshot = lists(&a);
    assert_eq!(a.allocate(0), Err(AllocError::OutOfMemory));
    assert_eq!(lists(&a), snapshot);
    assert_eq!(a.free_pages(), 0);
}

#[test]
fn errors_before_initialization_and_for_bad_orders() {
    let mut a = allocator(0, 0x4000);
    assert_eq!(a.allocate(0), Err(AllocError::NotInitialized));
    assert!(!a.is_ready());
    a.initialize(&[available(0, 0x4000)]);
    assert!(a.is_ready());
    assert_eq!(a.allocate(MAX_ORDER + 1), Err(AllocError::InvalidSize));
    assert_eq!(a.allocate(3), Err(AllocError::OutOfMemory));
}

#[test]
fn misaligned_or_foreign_free_is_dropped() {
    let mut a = allocator(0, 0x4000);
    a.initialize(&[available(0, 0x4000)]);
    let p = a.allocate(1).unwrap();
    let before = (lists(&a), a.allocated_pages());
    a.free(PhysAddr(p.inner() + 0x1000), 1);
    a.free(PhysAddr(0x8000), 0);
    a.free(p, MAX_ORDER + 1);
    assert_eq!((lists(&a), a.allocated_pages()), before);
}

#[test]
fn align_helpers() {
    assert_eq!(align_up(0x1001, 0x1000), 0x2000);
    assert_eq!(align_up(0x2000, 0x1000), 0x2000);
    assert_eq!(align_down(0x2FFF, 0x1000), 0x2000);
    assert_eq!(align_down(0x3000, 0x1000), 0x3000);
}

#[test]
fn page_api_before_setup() {
    let mut pma: OnceLock<BuddyAllocator> = OnceLock::new();
    assert_eq!(memory_stats(&pma), None);
    assert_eq!(allocate_pages(&mut pma, 1), Err(AllocError::NotInitialized));
    assert_eq!(allocate_pages(&mut pma, 0), Err(AllocError::InvalidSize));
}

#[test]
fn page_api_rounds_counts_up() {
    let mut pma: OnceLock<BuddyAllocator> = OnceLock::new();
    initialize(
        &mut pma,
        &[available(0, 0x9F000), available(MEMORY_START as u64, 0x100000)],
    );
    // 256 pages need 8 bitmap words, which take the region's first page
    let (total, allocated, free) = memory_stats(&pma).unwrap();
    assert_eq!(total, 0x100);
    assert_eq!(allocated, 1);
    assert_eq!(free, 0xFF);
    let p = allocate_pages(&mut pma, 3).unwrap();
    assert_eq!(p.inner() % (4 * PAGE_SIZE), 0);
    assert!(p.inner() >= MEMORY_START + PAGE_SIZE);
    assert_eq!(memory_stats(&pma), Some((0x100, 5, 0xFB)));
    assert_eq!(allocate_pages(&mut pma, 0), Err(AllocError::InvalidSize));
    assert_eq!(allocate_pages(&mut pma, 2049), Err(AllocError::InvalidSize));
    free_pages(&mut pma, p, 3);
    assert_eq!(memory_stats(&pma), Some((0x100, 1, 0xFF)));
}

#[test]
fn page_api_setup_happens_once() {
    let mut pma: OnceLock<BuddyAllocator> = OnceLock::new();
    let end = MEMORY_START + 0x10000;
    initialize(&mut pma, &[available(MEMORY_START as u64, (end - MEMORY_START) as u64)]);
    initialize(&mut pma, &[available(MEMORY_START as u64, 0x100000)]);
    assert_eq!(memory_stats(&pma), Some((0x10, 1, 0xF)));
}

#[test]
fn page_api_without_usable_memory() {
    let mut pma: OnceLock<BuddyAllocator> = OnceLock::new();
    initialize(&mut pma, &[region(MEMORY_START as u64, 0x10000, MultibootMmapEntryType::Reserved)]);
    assert_eq!(memory_stats(&pma), None);
    initialize(&mut pma, &[available(0, 0x9F000)]);
    assert_eq!(memory_stats(&pma), None);
}

#[test]
fn overlapping_regions_free_every_available_page() {
    let mut a = allocator(0, 0x8000);
    a.initialize(&[available(0, 0x3000), available(0x1000, 0x4000)]);
    assert_eq!(a.free_list(1), vec![0x0]);
    assert_eq!(a.free_list(0), vec![0x2000, 0x3000, 0x4000]);
    assert_eq!(a.free_pages(), 5);
    for i in 0..5 {
        assert!(!a.is_page_allocated(i));
    }
    for i in 5..8 {
        assert!(a.is_page_allocated(i));
    }
}

#[test]
fn bitmap_storage_is_never_handed_out() {
    let mut pma: OnceLock<BuddyAllocator> = OnceLock::new();
    initialize(&mut pma, &[available(MEMORY_START as u64, 0x2000)]);
    assert_eq!(memory_stats(&pma), Some((2, 1, 1)));
    assert_eq!(allocate_pages(&mut pma, 1), Ok(PhysAddr(MEMORY_START + PAGE_SIZE)));
    assert_eq!(allocate_pages(&mut pma, 1), Err(AllocError::OutOfMemory));
}
