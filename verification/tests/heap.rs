use corrosion::allocator::{
    alloc_bytes, alloc_bytes_zeroed, alloc_pages, alloc_pages_zeroed, free_bytes, init, Heap,
    HEADER_SIZE, POOL_PAGES,
};
use corrosion::config::PAGE_SIZE;

const BASE: usize = 0x8000_0000;

/// A heap that can hand out `pages` pages: one page more holds the page
/// records.
fn fresh(pages: usize) -> Heap {
    let mut heap = Heap::new(BASE, (pages + 1) * PAGE_SIZE).expect("layout fits");
    init(&mut heap);
    heap
}

fn pool_start(heap: &Heap) -> usize {
    heap.byte_grain_allocator().get_start()
}

#[test]
fn init_reserves_the_pool() {
    let heap = fresh(600);
    assert_eq!(heap.page_count(), 600);
    let start = pool_start(&heap);
    assert_eq!(start, BASE + 0x1000);
    assert_eq!(heap.byte_grain_allocator().get_head(), start);
    assert_eq!(heap.byte_grain_allocator().get_alloc(), POOL_PAGES);
    assert_eq!(heap.page_flags(0).flags, 1);
    assert_eq!(heap.page_flags(510).flags, 1);
    assert_eq!(heap.page_flags(511).flags, 3);
    assert_eq!(heap.page_flags(512).flags, 0);
}

#[test]
fn page_run_is_marked_taken_and_last() {
    let mut heap = fresh(600);
    let start = pool_start(&heap);
    let run = alloc_pages(&mut heap, 3);
    assert_eq!(run, start + 512 * PAGE_SIZE);
    assert_eq!(heap.page_flags(512).flags, 1);
    assert_eq!(heap.page_flags(513).flags, 1);
    assert_eq!(heap.page_flags(514).flags, 3);
    assert_eq!(heap.page_flags(515).flags, 0);
    let next = alloc_pages(&mut heap, 1);
    assert_eq!(next, start + 515 * PAGE_SIZE);
    assert_eq!(heap.page_flags(515).flags, 3);
}

#[test]
fn page_allocation_fails_without_a_run() {
    let mut heap = fresh(520);
    assert_eq!(alloc_pages(&mut heap, 9), 0);
    assert_ne!(alloc_pages(&mut heap, 8), 0);
    assert_eq!(alloc_pages(&mut heap, 1), 0);
    assert_eq!(alloc_pages(&mut heap, 10_000), 0);
}

#[test]
fn zeroed_pages_are_zero() {
    let mut heap = fresh(600);
    let run = alloc_pages_zeroed(&mut heap, 2);
    assert_ne!(run, 0);
    assert_eq!(heap.load(run), Some(0));
    assert_eq!(heap.load(run + 2 * PAGE_SIZE - 1), Some(0));
}

#[test]
fn byte_allocation_splits_first_fit() {
    let mut heap = fresh(600);
    let start = pool_start(&heap);
    let a = alloc_bytes(&mut heap, 1);
    assert_eq!(a, start + HEADER_SIZE);
    let b = alloc_bytes(&mut heap, 9);
    assert_eq!(b, start + 16 + HEADER_SIZE);
    let c = alloc_bytes(&mut heap, 0);
    assert_eq!(c, start + 16 + 24 + HEADER_SIZE);
    let d = alloc_bytes_zeroed(&mut heap, 8);
    assert_eq!(d, start + 16 + 24 + 8 + HEADER_SIZE);
    assert_eq!(heap.load(d), Some(0));
}

#[test]
fn whole_pool_round_trip() {
    let mut heap = fresh(600);
    let all = POOL_PAGES * PAGE_SIZE - HEADER_SIZE;
    let a = alloc_bytes(&mut heap, 100);
    let b = alloc_bytes(&mut heap, 200);
    let c = alloc_bytes(&mut heap, 300);
    assert_eq!(alloc_bytes(&mut heap, all), 0);
    free_bytes(&mut heap, c);
    free_bytes(&mut heap, b);
    free_bytes(&mut heap, a);
    let whole = alloc_bytes(&mut heap, all);
    assert_eq!(whole, pool_start(&heap) + HEADER_SIZE);
    assert_eq!(alloc_bytes(&mut heap, 0), 0);
}

#[test]
fn release_between_free_neighbours_makes_the_pool_whole() {
    let mut heap = fresh(600);
    let all = POOL_PAGES * PAGE_SIZE - HEADER_SIZE;
    let a = alloc_bytes(&mut heap, 100);
    let b = alloc_bytes(&mut heap, 200);
    let c = alloc_bytes(&mut heap, 300);
    free_bytes(&mut heap, a);
    free_bytes(&mut heap, c);
    free_bytes(&mut heap, b);
    assert_eq!(alloc_bytes(&mut heap, all), a);
}

#[test]
fn releases_in_the_order_of_the_requests_make_the_pool_whole() {
    let mut heap = fresh(600);
    let a = alloc_bytes(&mut heap, 8);
    let b = alloc_bytes(&mut heap, 8);
    free_bytes(&mut heap, a);
    free_bytes(&mut heap, b);
    assert_eq!(alloc_bytes(&mut heap, 2097144), pool_start(&heap) + HEADER_SIZE);
    assert_eq!(pool_start(&heap) + HEADER_SIZE, a);
}

#[test]
fn any_order_of_releases_makes_the_pool_whole() {
    let mut heap = fresh(600);
    let mut rng = Lcg(99);
    let all = POOL_PAGES * PAGE_SIZE - HEADER_SIZE;
    for _ in 0..30 {
        let mut live: Vec<usize> = Vec::new();
        for _ in 0..80 {
            if rng.next(3) != 0 || live.is_empty() {
                let ptr = alloc_bytes(&mut heap, 1 + rng.next(4000));
                assert_ne!(ptr, 0);
                live.push(ptr);
            } else {
                let victim = rng.next(live.len());
                free_bytes(&mut heap, live.swap_remove(victim));
            }
        }
        while !live.is_empty() {
            let victim = rng.next(live.len());
            free_bytes(&mut heap, live.swap_remove(victim));
        }
        let whole = alloc_bytes(&mut heap, all);
        assert_eq!(whole, pool_start(&heap) + HEADER_SIZE);
        free_bytes(&mut heap, whole);
    }
}

#[test]
fn pages_end_inside_the_heap() {
    let mut heap = Heap::new(BASE, 0x20_1000).expect("layout fits");
    assert_eq!(heap.size(), 0x20_1000);
    assert_eq!(heap.page_count(), 512);
    init(&mut heap);
    assert_eq!(alloc_pages(&mut heap, 1), 0);
    let mut heap = Heap::new(BASE, 0x20_1000 + 3 * PAGE_SIZE + 17).expect("layout fits");
    assert_eq!(heap.page_count(), 515);
    init(&mut heap);
    let end = BASE + 0x20_1000 + 3 * PAGE_SIZE + 17;
    let run = alloc_pages(&mut heap, 3);
    assert_eq!(run, pool_start(&heap) + 512 * PAGE_SIZE);
    assert!(run + 3 * PAGE_SIZE <= end);
    assert_eq!(alloc_pages(&mut heap, 1), 0);
    assert_eq!(heap.load(end - 1), Some(0));
    assert_eq!(heap.load(end), None);
}

#[test]
fn free_of_null_or_stranger_is_a_no_op() {
    let mut heap = fresh(600);
    let a = alloc_bytes(&mut heap, 64);
    free_bytes(&mut heap, 0);
    free_bytes(&mut heap, a + 8);
    free_bytes(&mut heap, 12345);
    let b = alloc_bytes(&mut heap, 64);
    assert_eq!(b, a + 64 + HEADER_SIZE);
    free_bytes(&mut heap, a);
    free_bytes(&mut heap, a);
    assert_eq!(alloc_bytes(&mut heap, 64), a);
}

#[test]
fn layout_that_does_not_fit_is_refused() {
    assert!(Heap::new(usize::MAX - 100, 1 << 20).is_none());
    assert!(Heap::new(BASE, 0).is_some());
    assert!(Heap::new(BASE + 1, 100).is_none());
    assert!(Heap::new(BASE + 1, 4095).is_some());
    assert_eq!(Heap::new(BASE + 1, 4095).map(|h| h.page_count()), Some(0));
    assert_eq!(Heap::new(BASE + 1, 4095 + 4095).map(|h| h.page_count()), Some(0));
    assert_eq!(Heap::new(BASE + 1, 4095 + 4096).map(|h| h.page_count()), Some(1));
    assert_eq!(Heap::new(BASE, 4096).map(|h| h.page_count()), Some(0));
    assert_eq!(Heap::new(BASE, 2 * 4096).map(|h| h.page_count()), Some(1));
}

struct Lcg(u64);

impl Lcg {
    fn next(&mut self, bound: usize) -> usize {
        self.0 = self.0.wrapping_mul(6364136223846793005).wrapping_add(1442695040888963407);
        ((self.0 >> 33) as usize) % bound
    }
}

#[test]
fn live_allocations_never_overlap() {
    let mut heap = fresh(700);
    let mut rng = Lcg(42);
    let mut live: Vec<(usize, usize)> = Vec::new();
    let mut pages: Vec<(usize, usize)> = Vec::new();
    for round in 0..600 {
        if rng.next(3) != 0 || live.is_empty() {
            let size = 1 + rng.next(5000);
            let ptr = alloc_bytes(&mut heap, size);
            if ptr != 0 {
                assert_eq!(ptr % 8, 0);
                live.push((ptr, size));
            }
        } else {
            let victim = rng.next(live.len());
            let (ptr, _) = live.swap_remove(victim);
            free_bytes(&mut heap, ptr);
        }
        if round % 60 == 0 {
            let count = 1 + rng.next(3);
            let run = alloc_pages(&mut heap, count);
            if run != 0 {
                pages.push((run, count * PAGE_SIZE));
            }
        }
        let pool_end = pool_start(&heap) + POOL_PAGES * PAGE_SIZE;
        for (i, a) in live.iter().enumerate() {
            assert!(a.0 >= pool_start(&heap) + HEADER_SIZE && a.0 + a.1 <= pool_end);
            for b in live.iter().skip(i + 1) {
                assert!(a.0 + a.1 <= b.0 || b.0 + b.1 <= a.0);
            }
        }
        for (i, a) in pages.iter().enumerate() {
            assert!(a.0 >= pool_end);
            for b in pages.iter().skip(i + 1) {
                assert!(a.0 + a.1 <= b.0 || b.0 + b.1 <= a.0);
            }
        }
    }
}

#[test]
fn releases_in_reverse_order_make_the_pool_whole() {
    let mut heap = fresh(600);
    let mut rng = Lcg(7);
    let all = POOL_PAGES * PAGE_SIZE - HEADER_SIZE;
    for _ in 0..20 {
        let mut stack: Vec<usize> = Vec::new();
        for _ in 0..50 {
            if rng.next(3) != 0 || stack.is_empty() {
                let ptr = alloc_bytes(&mut heap, 1 + rng.next(3000));
                assert_ne!(ptr, 0);
                stack.push(ptr);
            } else {
                free_bytes(&mut heap, stack.pop().expect("not empty"));
            }
        }
        while let Some(ptr) = stack.pop() {
            free_bytes(&mut heap, ptr);
        }
        let whole = alloc_bytes(&mut heap, all);
        assert_eq!(whole, pool_start(&heap) + HEADER_SIZE);
        free_bytes(&mut heap, whole);
    }
}

#[test]
fn exact_fit_and_header_sized_rest_are_taken_whole() {
    let mut heap = fresh(600);
    let start = pool_start(&heap);
    let a = alloc_bytes(&mut heap, 24);
    let b = alloc_bytes(&mut heap, 8);
    let c = alloc_bytes(&mut heap, 8);
    assert_eq!((a, b, c), (start + 8, start + 40, start + 56));
    free_bytes(&mut heap, a);
    assert_eq!(alloc_bytes(&mut heap, 16), a);
    assert_eq!(alloc_bytes(&mut heap, 8), start + 72);
    free_bytes(&mut heap, a);
    assert_eq!(alloc_bytes(&mut heap, 25), start + 88);
    assert_eq!(alloc_bytes(&mut heap, 8), a);
    assert_eq!(alloc_bytes(&mut heap, 8), start + 24);
    assert_eq!(alloc_bytes(&mut heap, 8), start + 128);
}

#[test]
fn zeroed_bytes_are_zero_over_the_rounded_size() {
    let mut heap = fresh(600);
    let a = alloc_bytes(&mut heap, 13);
    for i in 0..16 {
        assert!(heap.store(a + i, 0xee));
    }
    free_bytes(&mut heap, a);
    let b = alloc_bytes_zeroed(&mut heap, 13);
    assert_eq!(b, a);
    for i in 0..16 {
        assert_eq!(heap.load(b + i), Some(0));
    }
    assert_eq!(alloc_bytes(&mut heap, usize::MAX), 0);
    assert_eq!(alloc_bytes_zeroed(&mut heap, usize::MAX - 3), 0);
}
