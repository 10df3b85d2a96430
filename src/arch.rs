//! Architecture description: paging constants, address types, and the
//! machine state (physical memory words, root-table registers, TLB
//! invalidations) that the page-table code reads and writes.
use vstd::arithmetic::power2::{lemma2_to64, lemma_pow2_pos, pow2};
use vstd::bits::lemma_u64_low_bits_mask_is_mod;
use std::collections::HashMap;
use vstd::prelude::*;

verus! {

pub const PAGE_SHIFT: u64 = 12;

pub const PAGE_SIZE: u64 = 4096;

pub const PAGE_LEVELS: usize = 4;

pub const PAGE_ENTRY_SHIFT: usize = 9;

pub const PAGE_ENTRY_NUM: usize = 512;

pub const PAGE_ENTRY_MASK: usize = 511;

pub const PAGE_ENTRY_SIZE: usize = 8;

/// Bits of an entry (and of a virtual address) that hold a page address.
pub const PAGE_ADDRESS_MASK: u64 = 0x0000_ffff_ffff_f000;

/// Bits of an entry that hold flags.
pub const ENTRY_FLAGS_MASK: u64 = 0xffff_0000_0000_0fff;

/// Exclusive upper bound of physical addresses that an entry can hold.
pub const PHYS_ADDRESS_LIMIT: u64 = 0x0001_0000_0000_0000;

pub const ENTRY_FLAG_PRESENT: u64 = 0x1;

pub const ENTRY_FLAG_READWRITE: u64 = 0x2;

pub const ENTRY_FLAG_USER: u64 = 0x4;

/// This architecture has no read-only bit: read-only is the absence of the RW bit.
pub const ENTRY_FLAG_READONLY: u64 = 0;

/// This architecture has no execute bit: executable is the absence of the NX bit.
pub const ENTRY_FLAG_EXEC: u64 = 0;

pub const ENTRY_FLAG_NO_EXEC: u64 = 0x8000_0000_0000_0000;

pub const ENTRY_FLAG_DEFAULT_TABLE: u64 = 0x1;

/// Start of the kernel's linear alias of physical memory.
pub const PHYS_OFFSET: u64 = 0xffff_8000_0000_0000;

/// First virtual address of the kernel half of the address space.
pub const KERNEL_SPACE_START: u64 = 0x0000_8000_0000_0000;

/// Which root-table register an address space uses.
#[derive(Clone, Copy, Debug, PartialEq, Eq, Structural)]
pub enum PageTableKind {
    Kernel,
    User,
}

#[derive(Clone, Copy, Debug, PartialEq, Eq, Structural)]
pub struct PhysAddr(pub u64);

#[derive(Clone, Copy, Debug, PartialEq, Eq, Structural)]
pub struct VirtAddr(pub u64);

/// `align` is a power of two that fits in a machine word.
pub open spec fn is_pow2(align: u64) -> bool {
    exists|n: nat| n < 64 && align == pow2(n)
}

proof fn lemma_check_aligned(x: u64, align: u64)
    requires
        is_pow2(align),
    ensures
        align >= 1,
        (x & ((align - 1) as u64) == 0) <==> (x % align == 0),
{
    let n = choose|n: nat| n < 64 && align == pow2(n);
    lemma_pow2_pos(n);
    lemma_u64_low_bits_mask_is_mod(x, n);
}

pub proof fn lemma_page_size_pow2()
    ensures
        is_pow2(PAGE_SIZE),
{
    lemma2_to64();
    assert(PAGE_SIZE == pow2(12));
}

impl PhysAddr {
    pub fn new(data: u64) -> (r: PhysAddr)
        ensures
            r.0 == data,
    {
        PhysAddr(data)
    }

    pub fn data(&self) -> (r: u64)
        ensures
            r == self.0,
    {
        self.0
    }

    /// Whether the address is a multiple of `align`.
    pub fn check_aligned(&self, align: u64) -> (r: bool)
        requires
            is_pow2(align),
        ensures
            r == (self.0 % align == 0),
    {
        proof {
            lemma_check_aligned(self.0, align);
        }
        self.0 & (align - 1) == 0
    }
}

impl VirtAddr {
    pub fn new(data: u64) -> (r: VirtAddr)
        ensures
            r.0 == data,
    {
        VirtAddr(data)
    }

    pub fn data(&self) -> (r: u64)
        ensures
            r == self.0,
    {
        self.0
    }

    /// Whether the address is a multiple of `align`.
    pub fn check_aligned(&self, align: u64) -> (r: bool)
        requires
            is_pow2(align),
        ensures
            r == (self.0 % align == 0),
    {
        proof {
            lemma_check_aligned(self.0, align);
        }
        self.0 & (align - 1) == 0
    }

    /// The half of the address space the address lies in.
    pub fn kind(&self) -> (r: PageTableKind)
        ensures
            r == spec_kind(self.0),
    {
        if self.0 < KERNEL_SPACE_START {
            PageTableKind::User
        } else {
            PageTableKind::Kernel
        }
    }

    /// The address `offset` bytes further on.
    pub fn add(self, offset: u64) -> (r: VirtAddr)
        requires
            self.0 + offset <= u64::MAX,
        ensures
            r.0 == self.0 + offset,
    {
        VirtAddr(self.0 + offset)
    }
}

pub open spec fn spec_kind(v: u64) -> PageTableKind {
    if v < KERNEL_SPACE_START {
        PageTableKind::User
    } else {
        PageTableKind::Kernel
    }
}

/// The kernel-virtual alias of a physical address, where one exists.
pub fn phys_2_virt(phys: PhysAddr) -> (r: Option<VirtAddr>)
    ensures
        r == (if phys.0 + PHYS_OFFSET <= u64::MAX {
            Some(VirtAddr((phys.0 + PHYS_OFFSET) as u64))
        } else {
            None::<VirtAddr>
        }),
{
    if phys.0 <= u64::MAX - PHYS_OFFSET {
        Some(VirtAddr(phys.0 + PHYS_OFFSET))
    } else {
        None
    }
}

/// A TLB invalidation the machine was asked to perform.
#[derive(Clone, Copy, Debug, PartialEq, Eq, Structural)]
pub enum Invalidation {
    Page(VirtAddr),
    All,
}

/// The machine the page-table code runs on: physical memory as 64-bit words
/// (a word never written reads as zero), the two root-table registers, and
/// the TLB invalidations requested so far, oldest first.
pub struct MMArch {
    memory: HashMap<u64, u64>,
    kernel_table: PhysAddr,
    user_table: PhysAddr,
    invalidations: Vec<Invalidation>,
}

impl MMArch {
    pub closed spec fn memory_map(&self) -> Map<u64, u64> {
        self.memory@
    }

    /// The word at physical address `a`.
    pub open spec fn word(&self, a: u64) -> u64 {
        if self.memory_map().contains_key(a) {
            self.memory_map()[a]
        } else {
            0
        }
    }

    pub closed spec fn spec_table(&self, kind: PageTableKind) -> PhysAddr {
        match kind {
            PageTableKind::Kernel => self.kernel_table,
            PageTableKind::User => self.user_table,
        }
    }

    pub closed spec fn spec_invalidations(&self) -> Seq<Invalidation> {
        self.invalidations@
    }

    /// A machine with zeroed memory and the given root tables installed.
    pub fn new(kernel_table: PhysAddr, user_table: PhysAddr) -> (r: MMArch)
        ensures
            forall|a: u64| #[trigger] r.word(a) == 0,
            r.spec_table(PageTableKind::Kernel) == kernel_table,
            r.spec_table(PageTableKind::User) == user_table,
            r.spec_invalidations() == Seq::<Invalidation>::empty(),
    {
        let r = MMArch { memory: HashMap::new(), kernel_table, user_table, invalidations: Vec::new() };
        assert(r.memory@ == Map::<u64, u64>::empty());
        r
    }

    /// Reads the word at physical address `a`.
    pub fn read(&self, a: PhysAddr) -> (r: u64)
        ensures
            r == self.word(a.0),
    {
        broadcast use vstd::std_specs::hash::group_hash_axioms;

        match self.memory.get(&a.0) {
            Some(v) => *v,
            None => 0,
        }
    }

    /// Writes the word at physical address `a`.
    pub fn write(&mut self, a: PhysAddr, value: u64)
        ensures
            final(self).memory_map() == old(self).memory_map().insert(a.0, value),
            forall|k: PageTableKind| #[trigger] final(self).spec_table(k) == old(self).spec_table(k),
            final(self).spec_invalidations() == old(self).spec_invalidations(),
    {
        broadcast use vstd::std_specs::hash::group_hash_axioms;

        self.memory.insert(a.0, value);
    }

    /// The root table installed for `kind`.
    pub fn table(&self, kind: PageTableKind) -> (r: PhysAddr)
        ensures
            r == self.spec_table(kind),
    {
        match kind {
            PageTableKind::Kernel => self.kernel_table,
            PageTableKind::User => self.user_table,
        }
    }

    /// Installs `phys` as the root table for `kind`.
    pub fn set_table(&mut self, kind: PageTableKind, phys: PhysAddr)
        ensures
            final(self).memory_map() == old(self).memory_map(),
            final(self).spec_table(kind) == phys,
            forall|k: PageTableKind| k != kind ==> #[trigger] final(self).spec_table(k) == old(self).spec_table(k),
            final(self).spec_invalidations() == old(self).spec_invalidations(),
    {
        match kind {
            PageTableKind::Kernel => self.kernel_table = phys,
            PageTableKind::User => self.user_table = phys,
        }
    }

    /// Drops any cached translation of the page at `virt`.
    pub fn invalidate_page(&mut self, virt: VirtAddr)
        ensures
            final(self).memory_map() == old(self).memory_map(),
            forall|k: PageTableKind| #[trigger] final(self).spec_table(k) == old(self).spec_table(k),
            final(self).spec_invalidations() == old(self).spec_invalidations().push(Invalidation::Page(virt)),
    {
        self.invalidations.push(Invalidation::Page(virt));
    }

    /// Drops every cached translation.
    pub fn invalidate_all(&mut self)
        ensures
            final(self).memory_map() == old(self).memory_map(),
            forall|k: PageTableKind| #[trigger] final(self).spec_table(k) == old(self).spec_table(k),
            final(self).spec_invalidations() == old(self).spec_invalidations().push(Invalidation::All),
    {
        self.invalidations.push(Invalidation::All);
    }

    /// The invalidations requested so far, oldest first.
    pub fn invalidations(&self) -> (r: &Vec<Invalidation>)
        ensures
            r@ == self.spec_invalidations(),
    {
        &self.invalidations
    }
}

} // verus!
