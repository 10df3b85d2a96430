use kernel_mm::arch::{
    Invalidation, MMArch, PageTableKind, PhysAddr, VirtAddr, ENTRY_FLAG_PRESENT, PHYS_OFFSET,
};
use kernel_mm::bitmap_allocator::BitmapFrameAllocator;
use kernel_mm::mapper::PageMapper;
use kernel_mm::page::PageFlags;
use kernel_mm::page_frame::FrameAllocator;

fn fresh_user_mapper() -> PageMapper<BitmapFrameAllocator> {
    let allocator = BitmapFrameAllocator::new(PhysAddr::new(0x10_0000), 64);
    assert_eq!(allocator.usage().used().data(), 0);
    let arch = MMArch::new(PhysAddr::new(0), PhysAddr::new(0));
    PageMapper::create(PageTableKind::User, allocator, arch).expect("root table")
}

fn user_rw() -> PageFlags {
    PageFlags::new(0)
        .update_flags(ENTRY_FLAG_PRESENT, true)
        .set_write(true)
        .set_user(true)
}

fn used(m: &PageMapper<BitmapFrameAllocator>) -> usize {
    m.allocator_ref().usage().used().data()
}

#[test]
fn map_phys_then_translate_fresh_user_mapper() {
    let mut m = fresh_user_mapper();
    assert_eq!(used(&m), 1);
    let flush = m.map_phys(VirtAddr::new(0x400000), PhysAddr::new(0x8000_0000), user_rw());
    let flush = flush.expect("mapped");
    assert_eq!(flush.virt, VirtAddr::new(0x400000));
    m.flush(flush);
    let (p, f) = m.translate(VirtAddr::new(0x400000)).expect("translated");
    assert_eq!(p, PhysAddr::new(0x8000_0000));
    assert!(f.present());
    assert!(f.write());
    assert!(f.user());
    // The root and three lower tables.
    assert_eq!(used(&m), 4);
    assert_eq!(
        m.arch().invalidations(),
        &vec![Invalidation::Page(VirtAddr::new(0x400000))]
    );
}

#[test]
fn unmap_phys_prunes_tables() {
    let mut m = fresh_user_mapper();
    m.map_phys(VirtAddr::new(0x400000), PhysAddr::new(0x8000_0000), user_rw())
        .unwrap()
        .ignore();
    assert_eq!(used(&m), 4);
    let (p, f, flush) = m.unmap_phys(VirtAddr::new(0x400000), true).expect("unmapped");
    flush.ignore();
    assert_eq!(p, PhysAddr::new(0x8000_0000));
    assert!(f.write() && f.user() && f.present());
    // The three lower tables went back; the root stays.
    assert_eq!(used(&m), 1);
    assert!(m.translate(VirtAddr::new(0x400000)).is_none());
}

#[test]
fn map_then_unmap_returns_four_frames() {
    let mut m = fresh_user_mapper();
    let before = used(&m);
    m.map(VirtAddr::new(0x400000), user_rw()).unwrap().ignore();
    assert_eq!(used(&m), before + 4);
    m.unmap(VirtAddr::new(0x400000), true).unwrap().ignore();
    assert_eq!(used(&m), before);
}

#[test]
fn unmap_without_parents_keeps_tables() {
    let mut m = fresh_user_mapper();
    m.map_phys(VirtAddr::new(0x400000), PhysAddr::new(0x8000_0000), user_rw())
        .unwrap()
        .ignore();
    let (p, _, flush) = m.unmap_phys(VirtAddr::new(0x400000), false).unwrap();
    flush.ignore();
    assert_eq!(p, PhysAddr::new(0x8000_0000));
    assert_eq!(used(&m), 4);
    assert!(m.translate(VirtAddr::new(0x400000)).is_none());
}

#[test]
fn unmap_keeps_tables_still_in_use() {
    let mut m = fresh_user_mapper();
    m.map_phys(VirtAddr::new(0x400000), PhysAddr::new(0x8000_0000), user_rw())
        .unwrap()
        .ignore();
    m.map_phys(VirtAddr::new(0x401000), PhysAddr::new(0x8000_1000), user_rw())
        .unwrap()
        .ignore();
    assert_eq!(used(&m), 4);
    m.unmap_phys(VirtAddr::new(0x400000), true).unwrap().2.ignore();
    assert_eq!(used(&m), 4);
    let (p, _) = m.translate(VirtAddr::new(0x401000)).unwrap();
    assert_eq!(p, PhysAddr::new(0x8000_1000));
    m.unmap_phys(VirtAddr::new(0x401000), true).unwrap().2.ignore();
    assert_eq!(used(&m), 1);
}

#[test]
fn double_map_is_refused() {
    let mut m = fresh_user_mapper();
    let v = VirtAddr::new(0x400000);
    m.map_phys(v, PhysAddr::new(0x8000_0000), user_rw()).unwrap().ignore();
    assert!(m.map_phys(v, PhysAddr::new(0x9000_0000), user_rw()).is_none());
    let (p, _) = m.translate(v).unwrap();
    assert_eq!(p, PhysAddr::new(0x8000_0000));
    assert_eq!(used(&m), 4);
}

#[test]
fn misaligned_map_is_refused() {
    let mut m = fresh_user_mapper();
    assert!(m
        .map_phys(VirtAddr::new(0x400001), PhysAddr::new(0x8000_0000), user_rw())
        .is_none());
    assert!(m
        .map_phys(VirtAddr::new(0x400000), PhysAddr::new(0x8000_0001), user_rw())
        .is_none());
    assert_eq!(used(&m), 1);
    assert!(m.unmap_phys(VirtAddr::new(0x400001), true).is_none());
}

#[test]
fn remap_makes_page_writable() {
    let mut m = fresh_user_mapper();
    let v = VirtAddr::new(0x400000);
    let ro = PageFlags::new(0)
        .update_flags(ENTRY_FLAG_PRESENT, true)
        .set_write(false)
        .set_user(true);
    m.map_phys(v, PhysAddr::new(0x8000_0000), ro).unwrap().ignore();
    assert!(!m.translate(v).unwrap().1.write());
    m.remap(v, user_rw()).unwrap().ignore();
    let (p, f) = m.translate(v).unwrap();
    assert!(f.write());
    assert_eq!(p, PhysAddr::new(0x8000_0000));
}

#[test]
fn remap_of_unmapped_page_fails() {
    let mut m = fresh_user_mapper();
    assert!(m.remap(VirtAddr::new(0x400000), user_rw()).is_none());
    assert!(m.translate(VirtAddr::new(0x400000)).is_none());
}

#[test]
fn unmap_then_map_restores_translation() {
    let mut m = fresh_user_mapper();
    let v = VirtAddr::new(0x7000_0000);
    m.map_phys(v, PhysAddr::new(0x8000_0000), user_rw()).unwrap().ignore();
    let before = m.translate(v).unwrap();
    let (p, f, flush) = m.unmap_phys(v, false).unwrap();
    flush.ignore();
    m.map_phys(v, p, f).unwrap().ignore();
    assert_eq!(m.translate(v).unwrap(), before);
}

#[test]
fn map_fails_when_allocator_is_exhausted() {
    let allocator = BitmapFrameAllocator::new(PhysAddr::new(0x10_0000), 2);
    let arch = MMArch::new(PhysAddr::new(0), PhysAddr::new(0));
    let mut m = PageMapper::create(PageTableKind::User, allocator, arch).unwrap();
    assert!(m
        .map_phys(VirtAddr::new(0x400000), PhysAddr::new(0x8000_0000), user_rw())
        .is_none());
    assert!(m.translate(VirtAddr::new(0x400000)).is_none());
}

#[test]
fn map_linearly_uses_kernel_alias() {
    let allocator = BitmapFrameAllocator::new(PhysAddr::new(0x10_0000), 16);
    let arch = MMArch::new(PhysAddr::new(0), PhysAddr::new(0));
    let mut m = PageMapper::create(PageTableKind::Kernel, allocator, arch).unwrap();
    let flags = PageFlags::new(0).update_flags(ENTRY_FLAG_PRESENT, true);
    let (v, flush) = m.map_linearly(PhysAddr::new(0x20_0000), flags).unwrap();
    flush.ignore();
    assert_eq!(v, VirtAddr::new(PHYS_OFFSET + 0x20_0000));
    assert_eq!(m.translate(v).unwrap().0, PhysAddr::new(0x20_0000));
}

#[test]
fn make_current_installs_root() {
    let mut m = fresh_user_mapper();
    assert!(!m.is_current());
    m.make_current();
    assert!(m.is_current());
    let (_, arch) = m.into_parts();
    assert_eq!(arch.table(PageTableKind::User), PhysAddr::new(0x10_0000));
}

#[test]
fn frame_beyond_entry_range_is_refused() {
    let mut m = fresh_user_mapper();
    assert!(m
        .map_phys(VirtAddr::new(0x400000), PhysAddr::new(0x0001_0000_0000_0000), user_rw())
        .is_none());
    assert_eq!(used(&m), 1);
}

#[test]
fn new_tables_leave_neighbours_unmapped() {
    let mut m = fresh_user_mapper();
    m.map_phys(VirtAddr::new(0x400000), PhysAddr::new(0x8000_0000), user_rw())
        .unwrap()
        .ignore();
    assert!(m.translate(VirtAddr::new(0x401000)).is_none());
    assert!(m.translate(VirtAddr::new(0x600000)).is_none());
    assert!(m.translate(VirtAddr::new(0x4000_0000)).is_none());
}

#[test]
fn unmap_without_parents_keeps_allocator() {
    let mut m = fresh_user_mapper();
    m.map(VirtAddr::new(0x400000), user_rw()).unwrap().ignore();
    assert_eq!(used(&m), 5);
    m.unmap(VirtAddr::new(0x400000), false).unwrap().ignore();
    assert_eq!(used(&m), 4);
}
