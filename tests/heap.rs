use gale_sys::combined_allocator::{CombinedAllocator, HEAP_SIZE};
use gale_sys::page::{Page, PageClass, PAGE_SIZE, SMALL_SLOTS};

const BASE: usize = 0x_4444_4444_0000;

fn heap() -> CombinedAllocator {
    CombinedAllocator::new(BASE, HEAP_SIZE)
}

#[test]
fn whole_page_reused_after_release() {
    let mut h = heap();
    let p = h.allocate(4096, 8);
    assert_eq!(p, BASE);
    assert_eq!(h.pages.len(), 1);
    assert_eq!(h.pages[0].bump, PAGE_SIZE);
    h.deallocate(p, 4096);
    assert_eq!(h.pages[0].free_blocks, vec![(0, 4096)]);
    let q = h.allocate(4096, 8);
    assert_eq!(q, BASE);
    assert_eq!(h.pages.len(), 1);
    assert!(h.pages[0].free_blocks.is_empty());
}

#[test]
fn large_request_bumps_fresh_page() {
    let mut h = heap();
    let p = h.allocate(1890, 8);
    assert_eq!(p, BASE);
    assert_eq!(h.pages.len(), 1);
    assert_eq!(h.pages[0].class, PageClass::Large);
    assert_eq!(h.pages[0].bump, 1890);
    assert_eq!(h.pages[0].allocations, vec![(0, 1890)]);
}

#[test]
fn small_requests_take_consecutive_slots() {
    let mut h = heap();
    assert_eq!(h.allocate(128, 1), BASE);
    assert_eq!(h.allocate(128, 1), BASE + 256);
    assert_eq!(h.pages.len(), 1);
    assert_eq!(h.pages[0].class, PageClass::Small);
    assert!(h.pages[0].slots[0] && h.pages[0].slots[1] && !h.pages[0].slots[2]);
}

#[test]
fn region_exhaustion_fails() {
    let mut h = heap();
    let pages = HEAP_SIZE / PAGE_SIZE;
    for i in 0..pages {
        assert_eq!(h.allocate(4096, 8), BASE + i * PAGE_SIZE);
    }
    assert_eq!(h.heap_current, BASE + HEAP_SIZE);
    assert_eq!(h.allocate(4096, 8), 0);
    assert_eq!(h.allocate(4096, 8), 0);
    assert_eq!(h.allocate(16, 8), 0);
    assert_eq!(h.pages.len(), pages);
}

#[test]
fn mismatched_release_is_ignored() {
    let mut h = heap();
    let p = h.allocate(2000, 8);
    h.deallocate(p, 1999);
    assert_eq!(h.pages[0].allocations, vec![(0, 2000)]);
    assert!(h.pages[0].free_blocks.is_empty());
    assert!(h.cache.is_empty());
    let q = h.allocate(300, 8);
    h.deallocate(q, 299);
    assert!(h.cache.is_empty());
    h.deallocate(BASE + HEAP_SIZE, 2000);
    h.deallocate(1, 2000);
    assert_eq!(h.pages[0].allocations, vec![(0, 2000), (2000, 300)]);
}

#[test]
fn returned_addresses_are_aligned() {
    let mut h = heap();
    let a = h.allocate(513, 8);
    let b = h.allocate(600, 512);
    let c = h.allocate(700, 64);
    assert_eq!(a, BASE);
    assert_eq!(b % 512, 0);
    assert_eq!(b, BASE + 1024);
    assert_eq!(c % 64, 0);
    assert_eq!(c, BASE + 1664);
    let d = h.allocate(10, 512);
    assert_eq!(d % 512, 0);
}

#[test]
fn live_blocks_do_not_overlap() {
    let mut h = heap();
    let a = h.allocate(1000, 8);
    let b = h.allocate(1000, 16);
    let c = h.allocate(1000, 32);
    assert!(a + 1000 <= b);
    assert!(b + 1000 <= c);
    let al = &h.pages[0].allocations;
    for i in 0..al.len() {
        for j in 0..al.len() {
            if i != j {
                assert!(al[i].0 + al[i].1 <= al[j].0 || al[j].0 + al[j].1 <= al[i].0);
            }
        }
    }
}

#[test]
fn released_neighbours_are_merged() {
    let mut h = heap();
    let a = h.allocate(1504, 8);
    let b = h.allocate(1104, 8);
    let c = h.allocate(1200, 8);
    h.deallocate(a, 1504);
    h.deallocate(c, 1200);
    assert_eq!(h.pages[0].free_blocks, vec![(0, 1504), (2608, 1200)]);
    h.deallocate(b, 1104);
    assert_eq!(h.pages[0].free_blocks, vec![(0, 3808)]);
    assert!(h.pages[0].allocations.is_empty());
}

#[test]
fn first_fit_splits_a_free_block() {
    let mut h = heap();
    let a = h.allocate(3000, 8);
    h.deallocate(a, 3000);
    let b = h.allocate(1100, 1024);
    assert_eq!(b, BASE);
    assert_eq!(h.pages[0].free_blocks, vec![(1100, 1900)]);
    let c = h.allocate(900, 2048);
    assert_eq!(c, BASE + 2048);
    assert_eq!(h.pages[0].free_blocks, vec![(1100, 948), (2948, 52)]);
    let d = h.allocate(1100, 2048);
    assert_eq!(d, BASE + PAGE_SIZE);
}

#[test]
fn addresses_stay_in_region() {
    let mut h = heap();
    let mut n = 0;
    loop {
        let p = h.allocate(3000, 8);
        if p == 0 {
            break;
        }
        assert!(BASE <= p && p + 3000 <= BASE + HEAP_SIZE);
        n += 1;
    }
    assert_eq!(n, HEAP_SIZE / PAGE_SIZE);
    assert_eq!(h.allocate(100, 8), 0);
}

#[test]
fn round_trip_large_keeps_page_count() {
    let mut h = heap();
    let p = h.allocate(2000, 8);
    let current = h.heap_current;
    h.deallocate(p, 2000);
    assert_eq!(h.heap_current, current);
    let q = h.allocate(2000, 8);
    assert_eq!(q, p);
    assert_eq!(h.heap_current, current);
    assert_eq!(h.pages.len(), 1);
}

#[test]
fn round_trip_cached_block() {
    let mut h = heap();
    let p = h.allocate(100, 8);
    h.deallocate(p, 100);
    assert_eq!(h.cache, vec![(p, 100)]);
    h.deallocate(p, 100);
    assert_eq!(h.cache, vec![(p, 100)]);
    assert!(h.pages[0].slots[0]);
    let q = h.allocate(100, 8);
    assert_eq!(q, p);
    assert!(h.cache.is_empty());
    assert_eq!(h.pages.len(), 1);
}

#[test]
fn cache_serves_only_matching_size() {
    let mut h = heap();
    let p = h.allocate(100, 8);
    h.deallocate(p, 100);
    let q = h.allocate(50, 8);
    assert_eq!(q, BASE + 256);
    assert_eq!(h.cache, vec![(p, 100)]);
    let r = h.allocate(100, 8);
    assert_eq!(r, p);
}

#[test]
fn cache_is_last_in_first_out() {
    let mut h = heap();
    let a = h.allocate(64, 8);
    let b = h.allocate(64, 8);
    h.deallocate(a, 64);
    h.deallocate(b, 64);
    assert_eq!(h.allocate(64, 8), b);
    assert_eq!(h.allocate(64, 8), a);
}

#[test]
fn invalid_alignment_fails() {
    let mut h = heap();
    assert_eq!(h.allocate(8, 0), 0);
    assert!(h.pages.is_empty());
    // no page of the region can start on such a boundary: one is carved, none serves
    assert_eq!(h.allocate(8, 1 << 63), 0);
    assert_eq!(h.pages.len(), 1);
    assert!(h.pages[0].allocations.is_empty());
}

#[test]
fn alignment_above_page_grows_heap() {
    let mut h = heap();
    assert_eq!(h.allocate(16, 8192), BASE);
    assert_eq!(h.pages.len(), 1);
    assert_eq!(h.pages[0].allocations, vec![(0, 16)]);
    // the next page starts 4096 past an 8192 boundary: carved, but it cannot serve
    assert_eq!(h.allocate(16, 8192), 0);
    assert_eq!(h.pages.len(), 2);
    assert_eq!(h.allocate(16, 8192), BASE + 2 * PAGE_SIZE);
    assert_eq!(h.pages.len(), 3);
}

#[test]
fn zero_size_with_large_alignment() {
    let mut h = heap();
    assert_eq!(h.allocate(0, 512), BASE);
    assert_eq!(h.pages[0].class, PageClass::Large);
    assert_eq!(h.pages[0].allocations, vec![(0, 1)]);
    assert_eq!(h.allocate(0, 512), BASE + 512);
    h.deallocate(BASE, 0);
    assert_eq!(h.cache, vec![(BASE, 0)]);
    assert_eq!(h.allocate(0, 512), BASE);
    assert!(h.cache.is_empty());
}

#[test]
fn failure_on_full_region_changes_nothing() {
    let mut h = heap();
    let pages = HEAP_SIZE / PAGE_SIZE;
    for _ in 0..pages {
        assert_ne!(h.allocate(3000, 8), 0);
    }
    let before: Vec<(usize, Vec<(usize, usize)>, Vec<(usize, usize)>, Vec<bool>)> = h
        .pages
        .iter()
        .map(|p| (p.bump, p.allocations.clone(), p.free_blocks.clone(), p.slots.clone()))
        .collect();
    assert_eq!(h.allocate(2000, 8), 0);
    assert_eq!(h.allocate(2000, 8), 0);
    let after: Vec<(usize, Vec<(usize, usize)>, Vec<(usize, usize)>, Vec<bool>)> = h
        .pages
        .iter()
        .map(|p| (p.bump, p.allocations.clone(), p.free_blocks.clone(), p.slots.clone()))
        .collect();
    assert_eq!(before, after);
    assert_eq!(h.heap_current, BASE + HEAP_SIZE);
    assert!(h.cache.is_empty());
}

#[test]
fn oversized_request_fails() {
    let mut h = heap();
    assert_eq!(h.allocate(4097, 8), 0);
    assert_eq!(h.pages.len(), 1);
    assert_eq!(h.allocate(4096, 8), BASE);
}

#[test]
fn small_and_large_use_separate_pages() {
    let mut h = heap();
    let s = h.allocate(200, 8);
    let l = h.allocate(2000, 8);
    assert_eq!(s, BASE);
    assert_eq!(l, BASE + PAGE_SIZE);
    assert_eq!(h.pages[0].class, PageClass::Small);
    assert_eq!(h.pages[1].class, PageClass::Large);
}

#[test]
fn full_small_page_grows_heap() {
    let mut h = heap();
    for i in 0..SMALL_SLOTS {
        assert_eq!(h.allocate(32, 8), BASE + i * 256);
    }
    assert_eq!(h.allocate(32, 8), BASE + PAGE_SIZE);
    assert_eq!(h.pages.len(), 2);
}

#[test]
fn compaction_packs_occupied_slots() {
    let mut s = vec![false, true, false, true, true, false];
    Page::compact_small_block_bitmap(&mut s);
    assert_eq!(s, vec![true, true, true, false, false, false]);
    let mut e: Vec<bool> = Vec::new();
    Page::compact_small_block_bitmap(&mut e);
    assert!(e.is_empty());
}

#[test]
fn small_release_clears_and_compacts() {
    let mut p = Page::new(BASE, PageClass::Small);
    assert_eq!(p.alloc_small(), Some(BASE));
    assert_eq!(p.alloc_small(), Some(BASE + 256));
    assert_eq!(p.alloc_small(), Some(BASE + 512));
    p.dealloc_small(BASE + 256);
    assert_eq!(&p.slots[..4], &[true, true, false, false]);
    assert_eq!(p.alloc_small(), Some(BASE + 512));
}

#[test]
fn page_large_path_exhausts() {
    let mut p = Page::new(BASE, PageClass::Large);
    assert_eq!(p.alloc_large(4000, 8), Some(BASE));
    assert_eq!(p.alloc_large(100, 8), None);
    assert_eq!(p.alloc_large(96, 8), Some(BASE + 4000));
    p.dealloc_large(BASE + 4000, 96);
    p.dealloc_large(BASE, 4000);
    assert_eq!(p.free_blocks, vec![(0, 4096)]);
    assert!(p.holds_block(BASE, 4000) == false);
}

#[test]
fn merge_joins_both_sides() {
    let mut fb = vec![(0, 100), (200, 50)];
    gale_sys::page::merge_free_blocks(&mut fb, 100, 100);
    assert_eq!(fb, vec![(0, 250)]);
    let mut fb2 = vec![(0, 100), (300, 50)];
    gale_sys::page::merge_free_blocks(&mut fb2, 150, 50);
    assert_eq!(fb2, vec![(0, 100), (150, 50), (300, 50)]);
    gale_sys::page::merge_free_blocks(&mut fb2, 350, 10);
    assert_eq!(fb2, vec![(0, 100), (150, 50), (300, 60)]);
}
