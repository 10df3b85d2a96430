use kernel_mm::arch::{PhysAddr, VirtAddr};
use kernel_mm::bitmap_allocator::BitmapFrameAllocator;
use kernel_mm::page_frame::{
    FrameAllocator, PageFrameCount, PageFrameUsage, PhysPageFrame, VirtPageFrame,
};

#[test]
fn iter_range_yields_each_frame_once() {
    let mut it = PhysPageFrame::iter_range(
        PhysPageFrame::new(PhysAddr::new(0x1000)),
        PhysPageFrame::new(PhysAddr::new(0x4000)),
    );
    let mut got = Vec::new();
    while let Some(f) = it.next() {
        got.push(f.phys_address());
    }
    assert_eq!(
        got,
        vec![PhysAddr::new(0x1000), PhysAddr::new(0x2000), PhysAddr::new(0x3000)]
    );
}

#[test]
fn iter_range_is_half_open() {
    let a = PhysPageFrame::new(PhysAddr::new(0x5000));
    assert!(PhysPageFrame::iter_range(a, a).next().is_none());
    let mut it = PhysPageFrame::iter_range(a, a.next_by(4));
    let mut prev: Option<u64> = None;
    let mut n = 0;
    while let Some(f) = it.next() {
        if let Some(p) = prev {
            assert_eq!(f.phys_address().data(), p + 0x1000);
        }
        prev = Some(f.phys_address().data());
        n += 1;
    }
    assert_eq!(n, 4);
}

#[test]
fn virt_frames() {
    let a = VirtPageFrame::new(VirtAddr::new(0x1234));
    assert_eq!(a.virt_address(), VirtAddr::new(0x1000));
    assert_eq!(a.next().virt_address(), VirtAddr::new(0x2000));
    let mut it = VirtPageFrame::iter_range(a, a.next_by(2));
    assert_eq!(it.next().unwrap().virt_address(), VirtAddr::new(0x1000));
    assert_eq!(it.next().unwrap().virt_address(), VirtAddr::new(0x2000));
    assert!(it.next().is_none());
}

#[test]
fn frame_new_truncates() {
    let f = PhysPageFrame::new(PhysAddr::new(0x2fff));
    assert_eq!(f.phys_address(), PhysAddr::new(0x2000));
    assert_eq!(f.next().phys_address(), PhysAddr::new(0x3000));
}

#[test]
fn usage_reports_free_frames() {
    let u = PageFrameUsage::new(PageFrameCount::new(3), PageFrameCount::new(10));
    assert_eq!(u.used().data(), 3);
    assert_eq!(u.total().data(), 10);
    assert_eq!(u.free().data(), 7);
}

#[test]
fn bitmap_allocator_first_fit() {
    let mut a = BitmapFrameAllocator::new(PhysAddr::new(0x10_0000), 4);
    assert_eq!(a.allocate_one(), Some(PhysAddr::new(0x10_0000)));
    assert_eq!(a.allocate(PageFrameCount::new(2)), Some(PhysAddr::new(0x10_1000)));
    assert_eq!(a.allocate(PageFrameCount::new(2)), None);
    assert_eq!(a.usage().used().data(), 3);
    a.free(PhysAddr::new(0x10_1000), PageFrameCount::new(2));
    assert_eq!(a.usage().used().data(), 1);
    assert_eq!(a.allocate(PageFrameCount::new(3)), Some(PhysAddr::new(0x10_1000)));
    assert_eq!(a.usage().free().data(), 0);
    assert_eq!(a.allocate_one(), None);
    a.free_one(PhysAddr::new(0x10_0000));
    assert_eq!(a.allocate_one(), Some(PhysAddr::new(0x10_0000)));
}

#[test]
fn bitmap_allocator_rejects_zero_and_ignores_foreign_frees() {
    let mut a = BitmapFrameAllocator::new(PhysAddr::new(0x10_0000), 2);
    assert_eq!(a.allocate(PageFrameCount::new(0)), None);
    a.allocate_one().unwrap();
    a.free_one(PhysAddr::new(0x50_0000));
    a.free_one(PhysAddr::new(0x10_1000));
    assert_eq!(a.usage().used().data(), 1);
}
