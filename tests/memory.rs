use gale_sys::memory::BootInfoFrameAllocator;

#[test]
fn nothing_free_at_start() {
    let mut a = BootInfoFrameAllocator::init(vec![(0x1000, 0x5000)]);
    assert_eq!(a.allocate_frame(), None);
}

#[test]
fn released_frame_is_handed_out_once() {
    let mut a = BootInfoFrameAllocator::init(vec![(0x1000, 0x5000)]);
    assert!(a.deallocate_frame(0x2000));
    assert!(a.is_frame_free(0x2000));
    assert_eq!(a.allocate_frame(), Some(0x2000));
    assert!(!a.is_frame_free(0x2000));
    assert_eq!(a.allocate_frame(), None);
}

#[test]
fn frame_outside_regions_is_refused() {
    let mut a = BootInfoFrameAllocator::init(vec![(0x1000, 0x5000)]);
    assert!(!a.deallocate_frame(0x9000));
    assert!(a.free_frames.is_empty());
}

#[test]
fn regions_searched_in_map_order() {
    let mut a = BootInfoFrameAllocator::init(vec![(0x10000, 0x12000), (0x1000, 0x3000)]);
    assert!(a.deallocate_frame(0x1000));
    assert!(a.deallocate_frame(0x11000));
    assert_eq!(a.allocate_frame(), Some(0x11000));
    assert_eq!(a.allocate_frame(), Some(0x1000));
}

#[test]
fn unaligned_region_visits_containing_frames() {
    let mut a = BootInfoFrameAllocator::init(vec![(0x1800, 0x3000)]);
    assert!(!a.deallocate_frame(0x1000));
    assert!(a.deallocate_frame(0x2000));
    assert_eq!(a.allocate_frame(), Some(0x2000));
}

#[test]
fn marking_removes_every_copy() {
    let mut a = BootInfoFrameAllocator::init(vec![(0x0, 0x10000)]);
    a.deallocate_frame(0x3000);
    a.deallocate_frame(0x4000);
    a.deallocate_frame(0x3000);
    a.mark_frame_allocated(0x3000);
    assert_eq!(a.free_frames, vec![0x4000]);
}
