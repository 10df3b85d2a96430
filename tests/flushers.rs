use kernel_mm::arch::{
    phys_2_virt, Invalidation, MMArch, PageTableKind, PhysAddr, VirtAddr, KERNEL_SPACE_START,
    PHYS_OFFSET,
};
use kernel_mm::bitmap_allocator::BitmapFrameAllocator;
use kernel_mm::mapper::PageMapper;
use kernel_mm::page::{Flusher, PageFlush, PageFlushAll, PageTable};
use kernel_mm::page_frame::{
    allocate_page_frames, deallocate_page_frames, FrameAllocator, PageFrameCount,
};

#[test]
fn flushes_reach_the_machine() {
    let mut arch = MMArch::new(PhysAddr::new(0x1000), PhysAddr::new(0x2000));
    PageFlush::new(VirtAddr::new(0x5000)).flush(&mut arch);
    PageFlushAll::new().flush(&mut arch);
    PageFlush::new(VirtAddr::new(0x6000)).ignore();
    PageFlushAll::new().ignore();
    assert_eq!(
        arch.invalidations(),
        &vec![Invalidation::Page(VirtAddr::new(0x5000)), Invalidation::All]
    );
}

#[test]
fn flush_all_absorbs_single_page_flushes() {
    let mut arch = MMArch::new(PhysAddr::new(0x1000), PhysAddr::new(0x2000));
    let mut all = PageFlushAll::new();
    all.consume(PageFlush::new(VirtAddr::new(0x5000)));
    {
        let mut borrowed = &mut all;
        borrowed.consume(PageFlush::new(VirtAddr::new(0x7000)));
    }
    ().consume(PageFlush::new(VirtAddr::new(0x8000)));
    all.flush(&mut arch);
    assert_eq!(arch.invalidations(), &vec![Invalidation::All]);
}

#[test]
fn page_frames_from_an_allocator() {
    let mut a = BitmapFrameAllocator::new(PhysAddr::new(0x10_0000), 8);
    let f = allocate_page_frames(&mut a, PageFrameCount::new(3)).unwrap();
    assert_eq!(f.phys_address(), PhysAddr::new(0x10_0000));
    assert_eq!(a.usage().used().data(), 3);
    deallocate_page_frames(&mut a, f, PageFrameCount::new(3));
    assert_eq!(a.usage().used().data(), 0);
    assert!(allocate_page_frames(&mut a, PageFrameCount::new(9)).is_none());
}

#[test]
fn current_mapper_uses_installed_root() {
    let arch = MMArch::new(PhysAddr::new(0x1000), PhysAddr::new(0x2000));
    let allocator = BitmapFrameAllocator::new(PhysAddr::new(0x10_0000), 8);
    let mut m = PageMapper::current(PageTableKind::Kernel, allocator, arch);
    assert!(m.is_current());
    assert_eq!(m.table().phys(), PhysAddr::new(0x1000));
    assert_eq!(m.table().level(), 3);
    assert!(m.translate(VirtAddr::new(0x4000)).is_none());
    let before = m.allocator_mut().usage().used().data();
    m.allocator_mut().allocate_one().unwrap();
    assert_eq!(m.allocator_ref().usage().used().data(), before + 1);
    let t = PageTable::top_level_table(m.arch(), PageTableKind::User);
    assert_eq!(t.phys(), PhysAddr::new(0x2000));
    assert_eq!(t.base(), VirtAddr::new(0));
}

#[test]
fn kernel_alias_and_address_kinds() {
    assert_eq!(
        phys_2_virt(PhysAddr::new(0x1000)),
        Some(VirtAddr::new(PHYS_OFFSET + 0x1000))
    );
    assert_eq!(phys_2_virt(PhysAddr::new(u64::MAX)), None);
    assert_eq!(VirtAddr::new(0x1000).kind(), PageTableKind::User);
    assert_eq!(VirtAddr::new(KERNEL_SPACE_START).kind(), PageTableKind::Kernel);
    let t = PageTable::new(VirtAddr::new(0), PhysAddr::new(0x3000), 0);
    assert_eq!(t.virt(), Some(VirtAddr::new(PHYS_OFFSET + 0x3000)));
    assert_eq!(t.entry_virt(2), Some(VirtAddr::new(PHYS_OFFSET + 0x3010)));
    assert_eq!(t.entry_virt(512), None);
}
