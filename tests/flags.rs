use kernel_mm::arch::{
    MMArch, PhysAddr, VirtAddr, ENTRY_FLAG_NO_EXEC, ENTRY_FLAG_PRESENT, ENTRY_FLAG_READWRITE,
    ENTRY_FLAG_USER, PAGE_SIZE,
};
use kernel_mm::page::{
    round_down_to_page_size, round_up_to_page_size, PageEntry, PageFlags, PageTable,
};

#[test]
fn set_write_round_trips() {
    let f = PageFlags::new(0);
    assert!(f.set_write(true).write());
    assert!(!f.set_write(false).write());
    assert!(!f.set_write(true).set_write(false).write());
    assert_eq!(f.set_write(true).data(), ENTRY_FLAG_READWRITE);
}

#[test]
fn set_execute_round_trips() {
    let f = PageFlags::new(0);
    assert!(f.set_execute(true).execute());
    assert!(!f.set_execute(false).execute());
    assert_eq!(f.set_execute(false).data(), ENTRY_FLAG_NO_EXEC);
    assert_eq!(f.set_execute(true).data(), 0);
}

#[test]
fn user_and_present_flags() {
    let f = PageFlags::new(ENTRY_FLAG_PRESENT).set_user(true);
    assert!(f.user() && f.present());
    assert!(!f.set_user(false).user());
    assert!(f.has_flag(ENTRY_FLAG_PRESENT | ENTRY_FLAG_USER));
    assert!(!f.has_flag(ENTRY_FLAG_READWRITE));
    assert_eq!(f.update_flags(ENTRY_FLAG_PRESENT, false).data(), ENTRY_FLAG_USER);
}

#[test]
fn page_table_flags_are_kernel_read_only_no_exec() {
    let f = PageFlags::new_page_table();
    assert!(f.present());
    assert!(!f.write());
    assert!(!f.execute());
    assert!(!f.user());
}

#[test]
fn entry_address_and_flags() {
    let e = PageEntry::new(0x8000_0000 | ENTRY_FLAG_PRESENT | ENTRY_FLAG_READWRITE);
    assert_eq!(e.address(), Ok(PhysAddr::new(0x8000_0000)));
    assert!(e.flags().write());
    let absent = PageEntry::new(0x8000_0000 | ENTRY_FLAG_READWRITE);
    assert_eq!(absent.address(), Err(PhysAddr::new(0x8000_0000)));
    assert!(!absent.present());
    let mut e2 = e;
    e2.set_flags(PageFlags::new(ENTRY_FLAG_PRESENT | ENTRY_FLAG_USER));
    assert_eq!(e2.address(), Ok(PhysAddr::new(0x8000_0000)));
    assert!(e2.flags().user());
    assert!(!e2.flags().write());
    assert_eq!(e2.data(), 0x8000_0000 | ENTRY_FLAG_PRESENT | ENTRY_FLAG_USER);
}

#[test]
fn rounding() {
    assert_eq!(round_down_to_page_size(0x1234), 0x1000);
    assert_eq!(round_up_to_page_size(0x1234), 0x2000);
    assert_eq!(round_down_to_page_size(0x2000), 0x2000);
    assert_eq!(round_up_to_page_size(0x2000), 0x2000);
    assert_eq!(round_up_to_page_size(0), 0);
    assert_eq!(round_up_to_page_size(round_down_to_page_size(0x5678)), 0x5000);
    assert!(round_down_to_page_size(0xfff) + PAGE_SIZE > 0xfff);
}

#[test]
fn alignment_checks() {
    assert!(PhysAddr::new(0x3000).check_aligned(PAGE_SIZE));
    assert!(!PhysAddr::new(0x3001).check_aligned(PAGE_SIZE));
    assert!(VirtAddr::new(0x10).check_aligned(16));
    assert!(!VirtAddr::new(0x18).check_aligned(16));
}

#[test]
fn table_entries_and_indices() {
    let mut arch = MMArch::new(PhysAddr::new(0), PhysAddr::new(0));
    let t = PageTable::new(VirtAddr::new(0), PhysAddr::new(0x3000), 3);
    assert_eq!(t.index_of(VirtAddr::new(0x0000_0080_0000_0000)), Some(1));
    let leaf = PageTable::new(VirtAddr::new(0x40_0000), PhysAddr::new(0x4000), 0);
    assert_eq!(leaf.index_of(VirtAddr::new(0x40_5000)), Some(5));
    assert_eq!(leaf.entry_base(5), Some(VirtAddr::new(0x40_5000)));
    assert_eq!(t.entry_base(512), None);
    assert_eq!(t.entry_mapped(&arch, 1), Some(false));
    assert_eq!(t.set_entry(&mut arch, 1, PageEntry::new(0x4000 | ENTRY_FLAG_PRESENT)), Some(()));
    assert_eq!(t.entry_mapped(&arch, 1), Some(true));
    assert_eq!(t.entry_mapped(&arch, 512), None);
    let next = t.next_level_table(&arch, 1).unwrap();
    assert_eq!(next.phys(), PhysAddr::new(0x4000));
    assert_eq!(next.level(), 2);
    assert_eq!(next.base(), VirtAddr::new(0x0000_0080_0000_0000));
    assert!(t.next_level_table(&arch, 2).is_none());
    assert!(leaf.next_level_table(&arch, 0).is_none());
}
