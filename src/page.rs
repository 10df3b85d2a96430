//! Page-table entries and flags, table nodes, the page mapper that walks
//! and edits the table tree, and the flushers that stand for owed TLB
//! invalidations.
use crate::arch::{
    phys_2_virt, MMArch, PageTableKind, PhysAddr, VirtAddr, ENTRY_FLAGS_MASK, ENTRY_FLAG_DEFAULT_TABLE,
    ENTRY_FLAG_EXEC, ENTRY_FLAG_NO_EXEC, ENTRY_FLAG_PRESENT, ENTRY_FLAG_READONLY,
    ENTRY_FLAG_READWRITE, ENTRY_FLAG_USER, PAGE_ADDRESS_MASK, PAGE_ENTRY_NUM, PAGE_LEVELS, PAGE_SIZE,
    PHYS_ADDRESS_LIMIT,
};
use vstd::prelude::*;

verus! {

/// The page address held in an entry word.
pub open spec fn word_address(e: u64) -> u64 {
    e & PAGE_ADDRESS_MASK
}

/// The flag bits of an entry word.
pub open spec fn word_flags(e: u64) -> u64 {
    e & ENTRY_FLAGS_MASK
}

pub open spec fn word_present(e: u64) -> bool {
    e & ENTRY_FLAG_PRESENT != 0
}

/// All bits of `flag` are set in `d`.
pub open spec fn bits_set(d: u64, flag: u64) -> bool {
    d & flag == flag
}

/// `d` with the bits of `flag` set (`value`) or cleared.
pub open spec fn with_bits(d: u64, flag: u64, value: bool) -> u64 {
    if value {
        d | flag
    } else {
        d & !flag
    }
}

/// Writable: the RW bit set and the read-only bit clear.
pub open spec fn flags_write(d: u64) -> bool {
    d & (ENTRY_FLAG_READWRITE | ENTRY_FLAG_READONLY) == ENTRY_FLAG_READWRITE
}

/// Executable: the X bit set and the NX bit clear.
pub open spec fn flags_execute(d: u64) -> bool {
    d & (ENTRY_FLAG_EXEC | ENTRY_FLAG_NO_EXEC) == ENTRY_FLAG_EXEC
}

pub open spec fn spec_set_write(d: u64, value: bool) -> u64 {
    with_bits(with_bits(d, ENTRY_FLAG_READONLY, !value), ENTRY_FLAG_READWRITE, value)
}

pub open spec fn spec_set_execute(d: u64, value: bool) -> u64 {
    with_bits(with_bits(d, ENTRY_FLAG_NO_EXEC, !value), ENTRY_FLAG_EXEC, value)
}

/// One page-table cell: a page address and flags packed in a word.
#[derive(Clone, Copy, Debug, PartialEq, Eq, Structural)]
pub struct PageEntry {
    pub data: u64,
}

impl PageEntry {
    pub fn new(data: u64) -> (r: PageEntry)
        ensures
            r.data == data,
    {
        PageEntry { data }
    }

    pub fn data(&self) -> (r: u64)
        ensures
            r == self.data,
    {
        self.data
    }

    /// The address the entry holds: `Ok` when the entry is present, else
    /// `Err` with the same address.
    pub fn address(&self) -> (r: Result<PhysAddr, PhysAddr>)
        ensures
            r == (if word_present(self.data) {
                Ok::<PhysAddr, PhysAddr>(PhysAddr(word_address(self.data)))
            } else {
                Err::<PhysAddr, PhysAddr>(PhysAddr(word_address(self.data)))
            }),
    {
        let paddr = PhysAddr::new(self.data & PAGE_ADDRESS_MASK);
        if self.present() {
            Ok(paddr)
        } else {
            Err(paddr)
        }
    }

    pub fn flags(&self) -> (r: PageFlags)
        ensures
            r.data == word_flags(self.data),
    {
        PageFlags::new(self.data & ENTRY_FLAGS_MASK)
    }

    /// Replaces the flag bits by those of `flags`; the address is kept.
    pub fn set_flags(&mut self, flags: PageFlags)
        ensures
            final(self).data == (old(self).data & !ENTRY_FLAGS_MASK) | (flags.data & ENTRY_FLAGS_MASK),
            word_address(final(self).data) == word_address(old(self).data),
            word_flags(final(self).data) == word_flags(flags.data),
    {
        let d = self.data;
        let f = flags.data;
        assert((((d & !0xffff_0000_0000_0fffu64) | (f & 0xffff_0000_0000_0fffu64)) & 0x0000_ffff_ffff_f000u64)
            == d & 0x0000_ffff_ffff_f000u64) by (bit_vector);
        assert((((d & !0xffff_0000_0000_0fffu64) | (f & 0xffff_0000_0000_0fffu64)) & 0xffff_0000_0000_0fffu64)
            == f & 0xffff_0000_0000_0fffu64) by (bit_vector);
        self.data = (self.data & !ENTRY_FLAGS_MASK) | (flags.data & ENTRY_FLAGS_MASK);
    }

    pub fn present(&self) -> (r: bool)
        ensures
            r == word_present(self.data),
    {
        self.data & ENTRY_FLAG_PRESENT != 0
    }
}

/// The flag bits of an entry, changed as a whole value.
#[derive(Clone, Copy, Debug, PartialEq, Eq, Structural)]
pub struct PageFlags {
    pub data: u64,
}

impl PageFlags {
    pub fn new(data: u64) -> (r: PageFlags)
        ensures
            r.data == data,
    {
        PageFlags::from_data(data)
    }

    pub fn data(&self) -> (r: u64)
        ensures
            r == self.data,
    {
        self.data
    }

    pub fn from_data(data: u64) -> (r: PageFlags)
        ensures
            r.data == data,
    {
        PageFlags { data }
    }

    /// The flags of an entry that points at a table: present, read-only,
    /// kernel, no-execute.
    pub fn new_page_table() -> (r: PageFlags)
        ensures
            r.data == ENTRY_FLAG_DEFAULT_TABLE | ENTRY_FLAG_READONLY | ENTRY_FLAG_NO_EXEC,
            bits_set(r.data, ENTRY_FLAG_PRESENT),
            !flags_write(r.data),
            !flags_execute(r.data),
            !bits_set(r.data, ENTRY_FLAG_USER),
    {
        assert((1u64 | 0u64 | 0x8000_0000_0000_0000u64) == 0x8000_0000_0000_0001u64) by (bit_vector);
        assert((2u64 | 0u64) == 2u64) by (bit_vector);
        assert((0u64 | 0x8000_0000_0000_0000u64) == 0x8000_0000_0000_0000u64) by (bit_vector);
        assert(0x8000_0000_0000_0001u64 & 2u64 == 0u64) by (bit_vector);
        assert(0x8000_0000_0000_0001u64 & 4u64 == 0u64) by (bit_vector);
        assert(0x8000_0000_0000_0001u64 & 1u64 == 1u64) by (bit_vector);
        assert(0x8000_0000_0000_0001u64 & 0x8000_0000_0000_0000u64 != 0u64) by (bit_vector);
        PageFlags::from_data(ENTRY_FLAG_DEFAULT_TABLE | ENTRY_FLAG_READONLY | ENTRY_FLAG_NO_EXEC)
    }

    /// Sets (`value`) or clears the bits of `flag`.
    #[must_use]
    pub fn update_flags(self, flag: u64, value: bool) -> (r: PageFlags)
        ensures
            r.data == with_bits(self.data, flag, value),
    {
        if value {
            PageFlags { data: self.data | flag }
        } else {
            PageFlags { data: self.data & !flag }
        }
    }

    /// Whether every bit of `flag` is set.
    pub fn has_flag(&self, flag: u64) -> (r: bool)
        ensures
            r == bits_set(self.data, flag),
    {
        self.data & flag == flag
    }

    pub fn present(&self) -> (r: bool)
        ensures
            r == bits_set(self.data, ENTRY_FLAG_PRESENT),
    {
        self.has_flag(ENTRY_FLAG_PRESENT)
    }

    /// Makes the page reachable from user mode (`value`) or kernel-only.
    #[must_use]
    pub fn set_user(self, value: bool) -> (r: PageFlags)
        ensures
            r.data == with_bits(self.data, ENTRY_FLAG_USER, value),
            bits_set(r.data, ENTRY_FLAG_USER) == value,
    {
        let d = self.data;
        assert((d | 4u64) & 4u64 == 4u64) by (bit_vector);
        assert((d & !4u64) & 4u64 != 4u64) by (bit_vector);
        self.update_flags(ENTRY_FLAG_USER, value)
    }

    pub fn user(&self) -> (r: bool)
        ensures
            r == bits_set(self.data, ENTRY_FLAG_USER),
    {
        self.has_flag(ENTRY_FLAG_USER)
    }

    /// Makes the page writable or read-only, updating the RW and read-only
    /// bits together.
    #[must_use]
    pub fn set_write(self, value: bool) -> (r: PageFlags)
        ensures
            r.data == spec_set_write(self.data, value),
            flags_write(r.data) == value,
    {
        proof {
            lemma_set_write(self.data, value);
        }
        self.update_flags(ENTRY_FLAG_READONLY, !value).update_flags(ENTRY_FLAG_READWRITE, value)
    }

    pub fn write(&self) -> (r: bool)
        ensures
            r == flags_write(self.data),
    {
        self.data & (ENTRY_FLAG_READWRITE | ENTRY_FLAG_READONLY) == ENTRY_FLAG_READWRITE
    }

    /// Makes the page executable or not, updating the X and NX bits together.
    #[must_use]
    pub fn set_execute(self, value: bool) -> (r: PageFlags)
        ensures
            r.data == spec_set_execute(self.data, value),
            flags_execute(r.data) == value,
    {
        proof {
            lemma_set_execute(self.data, value);
        }
        self.update_flags(ENTRY_FLAG_NO_EXEC, !value).update_flags(ENTRY_FLAG_EXEC, value)
    }

    pub fn execute(&self) -> (r: bool)
        ensures
            r == flags_execute(self.data),
    {
        self.data & (ENTRY_FLAG_EXEC | ENTRY_FLAG_NO_EXEC) == ENTRY_FLAG_EXEC
    }
}

/// Setting writability yields exactly the requested writability.
pub proof fn lemma_set_write(d: u64, value: bool)
    ensures
        flags_write(spec_set_write(d, value)) == value,
{
    if value {
        assert((((d & !0u64) | 2u64) & (2u64 | 0u64)) == 2u64) by (bit_vector);
    } else {
        assert((((d | 0u64) & !2u64) & (2u64 | 0u64)) != 2u64) by (bit_vector);
    }
}

/// Writability holds exactly when the RW bit is set and the read-only bit
/// is clear, whatever the other bits.
pub proof fn lemma_write_composite(d: u64)
    ensures
        flags_write(d) == (bits_set(d, ENTRY_FLAG_READWRITE) && d & ENTRY_FLAG_READONLY == 0),
{
    assert((d & (2u64 | 0u64) == 2u64) == (d & 2u64 == 2u64 && d & 0u64 == 0u64)) by (bit_vector);
}

/// Setting executability yields exactly the requested executability.
pub proof fn lemma_set_execute(d: u64, value: bool)
    ensures
        flags_execute(spec_set_execute(d, value)) == value,
{
    if value {
        assert((((d & !0x8000_0000_0000_0000u64) | 0u64) & (0u64 | 0x8000_0000_0000_0000u64)) == 0u64)
            by (bit_vector);
    } else {
        assert((((d | 0x8000_0000_0000_0000u64) & !0u64) & (0u64 | 0x8000_0000_0000_0000u64)) != 0u64)
            by (bit_vector);
    }
}

/// Executability holds exactly when the X bit is set and the NX bit is
/// clear, whatever the other bits.
pub proof fn lemma_execute_composite(d: u64)
    ensures
        flags_execute(d) == (bits_set(d, ENTRY_FLAG_EXEC) && d & ENTRY_FLAG_NO_EXEC == 0),
{
    assert((d & (0u64 | 0x8000_0000_0000_0000u64) == 0u64) == (d & 0u64 == 0u64 && d
        & 0x8000_0000_0000_0000u64 == 0u64)) by (bit_vector);
}

pub open spec fn spec_round_down(addr: u64) -> u64 {
    (addr - addr % PAGE_SIZE) as u64
}

pub open spec fn spec_round_up(addr: u64) -> u64 {
    spec_round_down((addr + PAGE_SIZE - 1) as u64)
}

/// Rounds `addr` down to a page boundary.
pub fn round_down_to_page_size(addr: u64) -> (r: u64)
    ensures
        r == spec_round_down(addr),
{
    assert(addr & !4095u64 == addr - addr % 4096) by (bit_vector);
    addr & !(PAGE_SIZE - 1)
}

/// Rounds `addr` up to a page boundary.
pub fn round_up_to_page_size(addr: u64) -> (r: u64)
    requires
        addr + PAGE_SIZE - 1 <= u64::MAX,
    ensures
        r == spec_round_up(addr),
{
    round_down_to_page_size(addr + (PAGE_SIZE - 1))
}

/// Rounding down lands on the page that holds `x`; rounding up never goes
/// below `x` and stays within one page of it; both give page boundaries,
/// and an aligned value is left as it is by either.
pub proof fn lemma_rounding(x: u64)
    requires
        x + PAGE_SIZE - 1 <= u64::MAX,
    ensures
        spec_round_down(x) <= x < spec_round_down(x) + PAGE_SIZE,
        spec_round_down(x) % PAGE_SIZE == 0,
        x <= spec_round_up(x) < x + PAGE_SIZE,
        spec_round_up(x) % PAGE_SIZE == 0,
        x % PAGE_SIZE == 0 ==> spec_round_down(x) == x && spec_round_up(x) == x,
        spec_round_up(spec_round_down(x)) == spec_round_down(x),
{
    let y = (x + 4095) as u64;
    assert((x - x % 4096) % 4096 == 0) by (nonlinear_arith);
    assert((y - y % 4096) % 4096 == 0) by (nonlinear_arith);
    let d = (x - x % 4096) as u64;
    assert(d + 4095 - (d + 4095) % 4096 == d) by (nonlinear_arith)
        requires
            d % 4096 == 0,
    ;
}

/// A TLB invalidation owed for one page. It must be consumed by `flush`
/// or `ignore`.
#[must_use]
pub struct PageFlush {
    pub virt: VirtAddr,
}

impl PageFlush {
    pub fn new(virt: VirtAddr) -> (r: PageFlush)
        ensures
            r.virt == virt,
    {
        PageFlush { virt }
    }

    /// Invalidates the page's cached translation.
    pub fn flush(self, arch: &mut MMArch)
        ensures
            final(arch).memory_map() == old(arch).memory_map(),
            forall|k: PageTableKind| #[trigger] final(arch).spec_table(k) == old(arch).spec_table(k),
            final(arch).spec_invalidations() == old(arch).spec_invalidations().push(
                crate::arch::Invalidation::Page(self.virt),
            ),
    {
        arch.invalidate_page(self.virt);
    }

    /// Drops the owed invalidation on purpose.
    pub fn ignore(self) {
    }
}

/// A TLB invalidation owed for every page. It must be consumed by `flush`
/// or `ignore`.
#[must_use]
pub struct PageFlushAll {}

impl PageFlushAll {
    pub fn new() -> (r: PageFlushAll) {
        PageFlushAll {  }
    }

    /// Invalidates every cached translation.
    pub fn flush(self, arch: &mut MMArch)
        ensures
            final(arch).memory_map() == old(arch).memory_map(),
            forall|k: PageTableKind| #[trigger] final(arch).spec_table(k) == old(arch).spec_table(k),
            final(arch).spec_invalidations() == old(arch).spec_invalidations().push(
                crate::arch::Invalidation::All,
            ),
    {
        arch.invalidate_all();
    }

    /// Drops the owed invalidation on purpose.
    pub fn ignore(self) {
    }
}

/// Something that can take over single-page flushers.
pub trait Flusher {
    fn consume(&mut self, flush: PageFlush);
}

impl Flusher for PageFlushAll {
    /// A whole-table flush covers the page: the single-page flush is dropped.
    fn consume(&mut self, flush: PageFlush) {
        flush.ignore();
    }
}

/// A page-aligned physical address that an entry can hold.
pub open spec fn table_addr_ok(t: u64) -> bool {
    t % PAGE_SIZE == 0 && t < PHYS_ADDRESS_LIMIT
}

/// Number of address bits below the entries of a level-`level` table.
pub open spec fn level_shift(level: nat) -> u64 {
    (level * 9 + 12) as u64
}

/// The index, in a level-`level` table, of the entry that covers `v`.
pub open spec fn spec_index(v: u64, level: nat) -> int {
    (((v & PAGE_ADDRESS_MASK) >> level_shift(level)) & 511u64) as int
}

/// The `i`-th entry word of the table at physical address `t`.
pub open spec fn entry_word(arch: MMArch, t: u64, i: int) -> u64 {
    arch.word((t + i * 8) as u64)
}

/// The tables a lookup of `v` passes through, from the level-`level` table
/// at `t` down, while the entries it follows are present.
pub open spec fn walk(arch: MMArch, t: u64, level: nat, v: u64) -> Seq<u64>
    decreases level,
{
    if level == 0 {
        seq![t]
    } else {
        let e = entry_word(arch, t, spec_index(v, level));
        if word_present(e) {
            seq![t] + walk(arch, word_address(e), (level - 1) as nat, v)
        } else {
            seq![t]
        }
    }
}

pub open spec fn root_level() -> nat {
    (PAGE_LEVELS - 1) as nat
}

/// The leaf-level table for `v` under the root at `root`, when every level
/// above it is present.
pub open spec fn leaf_table(arch: MMArch, root: u64, v: u64) -> Option<u64> {
    let w = walk(arch, root, root_level(), v);
    if w.len() == PAGE_LEVELS {
        Some(w[PAGE_LEVELS - 1])
    } else {
        None
    }
}

/// The leaf entry word for `v`, when its table is reachable.
pub open spec fn leaf_word(arch: MMArch, root: u64, v: u64) -> Option<u64> {
    match leaf_table(arch, root, v) {
        Some(t) => Some(entry_word(arch, t, spec_index(v, 0))),
        None => None,
    }
}

/// What a lookup of `v` finds: the physical page and the flags of a present
/// leaf entry.
pub open spec fn spec_translate(arch: MMArch, root: u64, v: u64) -> Option<(u64, u64)> {
    match leaf_word(arch, root, v) {
        Some(e) => if word_present(e) {
            Some((word_address(e), word_flags(e)))
        } else {
            None
        },
        None => None,
    }
}

/// No entry of the table at `t` is present.
pub open spec fn table_unused(arch: MMArch, t: u64) -> bool {
    forall|j: int| 0 <= j < PAGE_ENTRY_NUM ==> !word_present(#[trigger] entry_word(arch, t, j))
}

/// `a` is the address of the entry for `v` in one of the tables of `w`,
/// where `w[k]` is a table at level `root_level() - k`.
pub open spec fn on_walk(w: Seq<u64>, v: u64, a: u64) -> bool {
    exists|k: int| 0 <= k < w.len() && a == w[k] + spec_index(v, (root_level() - k) as nat) * 8
}

/// The page-aligned address of the page that holds `a`.
pub open spec fn page_of(a: u64) -> u64 {
    (a - a % PAGE_SIZE) as u64
}

/// Entry `i` of the table at `t` lies in the page at `t`.
pub(crate) proof fn lemma_page_of_entry(t: u64, i: int)
    requires
        table_addr_ok(t),
        0 <= i < 512,
    ensures
        page_of((t + i * 8) as u64) == t,
{
    lemma_aligned_bits(t);
    let ii = i as u64;
    assert((t + ii * 8) % 4096 == ii * 8) by (bit_vector)
        requires
            t & 0xfff == 0,
            ii < 512,
            t < 0x0001_0000_0000_0000u64,
    ;
}

/// Along `path`, each table's entry for `v` is present and points at the
/// next table; `path[0]` is at the root level.
pub open spec fn links(arch: MMArch, path: Seq<u64>, v: u64) -> bool {
    forall|k: int|
        0 <= k < path.len() - 1 ==> {
            let e = #[trigger] entry_word(arch, path[k], spec_index(v, (root_level() - k) as nat));
            word_present(e) && word_address(e) == path[k + 1]
        }
}

pub(crate) proof fn lemma_walk_basics(arch: MMArch, t: u64, level: nat, v: u64)
    ensures
        1 <= walk(arch, t, level, v).len() <= level + 1,
        walk(arch, t, level, v)[0] == t,
    decreases level,
{
    if level > 0 {
        let e = entry_word(arch, t, spec_index(v, level));
        if word_present(e) {
            lemma_walk_basics(arch, word_address(e), (level - 1) as nat, v);
        }
    }
}

/// A walk that follows `path` first continues from its last table.
pub(crate) proof fn lemma_walk_links(arch: MMArch, path: Seq<u64>, v: u64, from: int)
    requires
        links(arch, path, v),
        path.len() <= PAGE_LEVELS,
        0 <= from < path.len(),
    ensures
        walk(arch, path[from], (root_level() - from) as nat, v) == path.subrange(from, path.len() - 1)
            + walk(arch, path.last(), (root_level() - (path.len() - 1)) as nat, v),
    decreases path.len() - from,
{
    if from < path.len() - 1 {
        let e = entry_word(arch, path[from], spec_index(v, (root_level() - from) as nat));
        assert(word_present(e) && word_address(e) == path[from + 1]);
        lemma_walk_links(arch, path, v, from + 1);
        assert(path.subrange(from, path.len() - 1) =~= seq![path[from]] + path.subrange(
            from + 1,
            path.len() - 1,
        ));
    } else {
        assert(path.subrange(from, path.len() - 1) =~= Seq::<u64>::empty());
    }
}

pub(crate) proof fn lemma_aligned_bits(x: u64)
    ensures
        (x % 4096 == 0) == (x & 0xfff == 0),
{
    assert((x % 4096 == 0) == (x & 0xfff == 0)) by (bit_vector);
}

/// An entry's address field is a page-aligned address that an entry can hold.
pub(crate) proof fn lemma_word_address_ok(e: u64)
    ensures
        table_addr_ok(word_address(e)),
{
    let a = e & 0x0000_ffff_ffff_f000u64;
    assert(a & 0xfff == 0 && a < 0x0001_0000_0000_0000u64) by (bit_vector)
        requires
            a == e & 0x0000_ffff_ffff_f000u64,
    ;
    lemma_aligned_bits(a);
}

/// Entries of two different tables lie at different addresses.
pub(crate) proof fn lemma_entry_addrs_differ(t: u64, i: int, u: u64, j: int)
    requires
        table_addr_ok(t),
        table_addr_ok(u),
        0 <= i < 512,
        0 <= j < 512,
        t != u || i != j,
    ensures
        (t + i * 8) as u64 != (u + j * 8) as u64,
{
    lemma_aligned_bits(t);
    lemma_aligned_bits(u);
    if t != u {
        let ii = i as u64;
        let jj = j as u64;
        assert(t + ii * 8 != u + jj * 8) by (bit_vector)
            requires
                t & 0xfff == 0,
                u & 0xfff == 0,
                t != u,
                ii < 512,
                jj < 512,
                t < 0x0001_0000_0000_0000u64,
                u < 0x0001_0000_0000_0000u64,
        ;
    }
}

pub(crate) proof fn lemma_index_bound(v: u64, level: nat)
    ensures
        0 <= spec_index(v, level) < 512,
{
    let a = v & 0x0000_ffff_ffff_f000u64;
    let sh = level_shift(level);
    assert((a >> sh) & 511u64 < 512) by (bit_vector);
}

/// Walks depend on memory only.
pub(crate) proof fn lemma_walk_same_memory(a1: MMArch, a2: MMArch, t: u64, level: nat, v: u64)
    requires
        a1.memory_map() == a2.memory_map(),
    ensures
        walk(a1, t, level, v) == walk(a2, t, level, v),
    decreases level,
{
    if level > 0 {
        let e = entry_word(a1, t, spec_index(v, level));
        lemma_walk_same_memory(a1, a2, word_address(e), (level - 1) as nat, v);
    }
}

/// Lookups depend on memory only.
pub(crate) proof fn lemma_translate_same_memory(a1: MMArch, a2: MMArch, root: u64, v: u64)
    requires
        a1.memory_map() == a2.memory_map(),
    ensures
        leaf_word(a1, root, v) == leaf_word(a2, root, v),
        spec_translate(a1, root, v) == spec_translate(a2, root, v),
{
    lemma_walk_same_memory(a1, a2, root, root_level(), v);
}

/// A word written at one entry leaves every other entry as it was.
pub(crate) proof fn lemma_entry_after_write(a1: MMArch, a2: MMArch, t: u64, i: int, value: u64, u: u64, j: int)
    requires
        table_addr_ok(t),
        table_addr_ok(u),
        0 <= i < 512,
        0 <= j < 512,
        a2.memory_map() == a1.memory_map().insert((t + i * 8) as u64, value),
    ensures
        entry_word(a2, u, j) == if t == u && i == j {
            value
        } else {
            entry_word(a1, u, j)
        },
{
    if t != u || i != j {
        lemma_entry_addrs_differ(t, i, u, j);
    }
}

/// A word written at an entry of one table leaves every other table as it was.
pub(crate) proof fn lemma_write_keeps_table(a1: MMArch, a2: MMArch, t: u64, i: int, value: u64, u: u64)
    requires
        table_addr_ok(t),
        table_addr_ok(u),
        0 <= i < 512,
        t != u,
        a2.memory_map() == a1.memory_map().insert((t + i * 8) as u64, value),
    ensures
        forall|j: int| 0 <= j < PAGE_ENTRY_NUM ==> #[trigger] entry_word(a2, u, j) == entry_word(a1, u, j),
        table_unused(a2, u) == table_unused(a1, u),
{
    assert forall|j: int| 0 <= j < PAGE_ENTRY_NUM implies #[trigger] entry_word(a2, u, j) == entry_word(a1, u, j) by {
        lemma_entry_after_write(a1, a2, t, i, value, u, j);
    }
    if table_unused(a1, u) {
        assert forall|j: int| 0 <= j < PAGE_ENTRY_NUM implies !word_present(#[trigger] entry_word(a2, u, j)) by {
            assert(entry_word(a2, u, j) == entry_word(a1, u, j));
        }
    }
    if table_unused(a2, u) {
        assert forall|j: int| 0 <= j < PAGE_ENTRY_NUM implies !word_present(#[trigger] entry_word(a1, u, j)) by {
            lemma_entry_after_write(a1, a2, t, i, value, u, j);
        }
    }
}

/// One level of the table tree: the table at `phys`, which maps the
/// virtual range that starts at `base`.
#[derive(Clone, Copy, Debug)]
pub struct PageTable {
    pub base: VirtAddr,
    pub phys: PhysAddr,
    /// 0 at the leaf level, `PAGE_LEVELS - 1` at the root.
    pub level: usize,
}

impl PageTable {
    pub open spec fn wf(&self) -> bool {
        self.level < PAGE_LEVELS && table_addr_ok(self.phys.0)
    }

    pub fn new(base: VirtAddr, phys: PhysAddr, level: usize) -> (r: PageTable)
        ensures
            r.base == base,
            r.phys == phys,
            r.level == level,
    {
        PageTable { base, phys, level }
    }

    /// The root table installed on the machine for `kind`.
    pub fn top_level_table(arch: &MMArch, kind: PageTableKind) -> (r: PageTable)
        ensures
            r.base.0 == 0,
            r.phys == arch.spec_table(kind),
            r.level == PAGE_LEVELS - 1,
    {
        PageTable::new(VirtAddr::new(0), arch.table(kind), PAGE_LEVELS - 1)
    }

    pub fn phys(&self) -> (r: PhysAddr)
        ensures
            r == self.phys,
    {
        self.phys
    }

    pub fn base(&self) -> (r: VirtAddr)
        ensures
            r == self.base,
    {
        self.base
    }

    pub fn level(&self) -> (r: usize)
        ensures
            r == self.level,
    {
        self.level
    }

    /// The kernel-virtual address of the table itself.
    pub fn virt(&self) -> (r: Option<VirtAddr>)
        ensures
            r == (if self.phys.0 + crate::arch::PHYS_OFFSET <= u64::MAX {
                Some(VirtAddr((self.phys.0 + crate::arch::PHYS_OFFSET) as u64))
            } else {
                None::<VirtAddr>
            }),
    {
        phys_2_virt(self.phys)
    }

    /// The first virtual address that entry `i` maps.
    pub fn entry_base(&self, i: usize) -> (r: Option<VirtAddr>)
        requires
            self.wf(),
        ensures
            r == (if i < PAGE_ENTRY_NUM && self.base.0 + i * pow2_level(self.level) <= u64::MAX {
                Some(VirtAddr((self.base.0 + i * pow2_level(self.level)) as u64))
            } else {
                None::<VirtAddr>
            }),
    {
        if i < PAGE_ENTRY_NUM {
            let shift: u64 = (self.level as u64) * 9 + 12;
            let off: u64 = (i as u64) << shift;
            proof {
                lemma_shift_is_span(i as u64, self.level);
            }
            if self.base.0 <= u64::MAX - off {
                return Some(VirtAddr::new(self.base.0 + off));
            }
        }
        None
    }

    /// The physical address of entry `i`.
    fn entry_phys(&self, i: usize) -> (r: PhysAddr)
        requires
            self.wf(),
            i < PAGE_ENTRY_NUM,
        ensures
            r.0 == self.phys.0 + i * 8,
    {
        PhysAddr::new(self.phys.0 + (i as u64) * 8)
    }

    /// The kernel-virtual address of entry `i`.
    pub fn entry_virt(&self, i: usize) -> (r: Option<VirtAddr>)
        requires
            self.wf(),
        ensures
            r == (if i < PAGE_ENTRY_NUM && self.phys.0 + i * 8 + crate::arch::PHYS_OFFSET <= u64::MAX {
                Some(VirtAddr((self.phys.0 + i * 8 + crate::arch::PHYS_OFFSET) as u64))
            } else {
                None::<VirtAddr>
            }),
    {
        if i < PAGE_ENTRY_NUM {
            phys_2_virt(self.entry_phys(i))
        } else {
            None
        }
    }

    /// Entry `i`, when `i` is an index of the table.
    pub fn entry(&self, arch: &MMArch, i: usize) -> (r: Option<PageEntry>)
        requires
            self.wf(),
        ensures
            r == (if i < PAGE_ENTRY_NUM {
                Some(PageEntry { data: entry_word(*arch, self.phys.0, i as int) })
            } else {
                None::<PageEntry>
            }),
    {
        if i < PAGE_ENTRY_NUM {
            Some(PageEntry::new(arch.read(self.entry_phys(i))))
        } else {
            None
        }
    }

    /// Writes entry `i`, when `i` is an index of the table.
    pub fn set_entry(&self, arch: &mut MMArch, i: usize, entry: PageEntry) -> (r: Option<()>)
        requires
            self.wf(),
        ensures
            r is Some == (i < PAGE_ENTRY_NUM),
            i < PAGE_ENTRY_NUM ==> final(arch).memory_map() == old(arch).memory_map().insert(
                (self.phys.0 + i * 8) as u64,
                entry.data,
            ),
            i >= PAGE_ENTRY_NUM ==> final(arch).memory_map() == old(arch).memory_map(),
            forall|k: PageTableKind| #[trigger] final(arch).spec_table(k) == old(arch).spec_table(k),
            final(arch).spec_invalidations() == old(arch).spec_invalidations(),
    {
        if i < PAGE_ENTRY_NUM {
            arch.write(self.entry_phys(i), entry.data);
            Some(())
        } else {
            None
        }
    }

    /// Writes zero to every entry.
    pub fn clear(&self, arch: &mut MMArch)
        requires
            self.wf(),
        ensures
            forall|j: int| 0 <= j < PAGE_ENTRY_NUM ==> #[trigger] entry_word(*final(arch), self.phys.0, j) == 0,
            forall|u: u64, j: int|
                u != self.phys.0 && table_addr_ok(u) && 0 <= j < PAGE_ENTRY_NUM ==> #[trigger] entry_word(
                    *final(arch),
                    u,
                    j,
                ) == entry_word(*old(arch), u, j),
            forall|a: u64| page_of(a) != self.phys.0 ==> #[trigger] final(arch).word(a) == old(arch).word(a),
            forall|k: PageTableKind| #[trigger] final(arch).spec_table(k) == old(arch).spec_table(k),
            final(arch).spec_invalidations() == old(arch).spec_invalidations(),
    {
        let mut i: usize = 0;
        while i < PAGE_ENTRY_NUM
            invariant
                self.wf(),
                i <= PAGE_ENTRY_NUM,
                forall|j: int| 0 <= j < i ==> #[trigger] entry_word(*arch, self.phys.0, j) == 0,
                forall|u: u64, j: int|
                    u != self.phys.0 && table_addr_ok(u) && 0 <= j < PAGE_ENTRY_NUM ==> #[trigger] entry_word(
                        *arch,
                        u,
                        j,
                    ) == entry_word(*old(arch), u, j),
                forall|a: u64| page_of(a) != self.phys.0 ==> #[trigger] arch.word(a) == old(arch).word(a),
                forall|k: PageTableKind| #[trigger] arch.spec_table(k) == old(arch).spec_table(k),
                arch.spec_invalidations() == old(arch).spec_invalidations(),
            decreases PAGE_ENTRY_NUM - i,
        {
            let ghost before = *arch;
            self.set_entry(arch, i, PageEntry::new(0));
            proof {
                lemma_page_of_entry(self.phys.0, i as int);
                assert forall|a: u64| page_of(a) != self.phys.0 implies #[trigger] arch.word(a) == old(arch).word(a) by {
                    assert(a != (self.phys.0 + i * 8) as u64);
                    assert(arch.word(a) == before.word(a));
                }
                assert forall|j: int| 0 <= j <= i implies #[trigger] entry_word(*arch, self.phys.0, j) == 0 by {
                    lemma_entry_after_write(before, *arch, self.phys.0, i as int, 0, self.phys.0, j);
                }
                assert forall|u: u64, j: int|
                    u != self.phys.0 && table_addr_ok(u) && 0 <= j < PAGE_ENTRY_NUM implies #[trigger] entry_word(
                        *arch,
                        u,
                        j,
                    ) == entry_word(*old(arch), u, j) by {
                    lemma_entry_after_write(before, *arch, self.phys.0, i as int, 0, u, j);
                }
            }
            i = i + 1;
        }
    }

    /// Whether no entry of the table is present.
    pub fn is_unused(&self, arch: &MMArch) -> (r: bool)
        requires
            self.wf(),
        ensures
            r == table_unused(*arch, self.phys.0),
    {
        let mut j: usize = 0;
        while j < PAGE_ENTRY_NUM
            invariant
                self.wf(),
                j <= PAGE_ENTRY_NUM,
                forall|k: int| 0 <= k < j ==> !word_present(#[trigger] entry_word(*arch, self.phys.0, k)),
            decreases PAGE_ENTRY_NUM - j,
        {
            if self.entry(arch, j).unwrap().present() {
                return false;
            }
            j = j + 1;
        }
        true
    }

    /// Whether entry `i` holds anything (a zero word is an empty slot).
    pub fn entry_mapped(&self, arch: &MMArch, i: usize) -> (r: Option<bool>)
        requires
            self.wf(),
        ensures
            r == (if i < PAGE_ENTRY_NUM {
                Some(entry_word(*arch, self.phys.0, i as int) != 0)
            } else {
                None::<bool>
            }),
    {
        if i < PAGE_ENTRY_NUM {
            Some(arch.read(self.entry_phys(i)) != 0)
        } else {
            None
        }
    }

    /// The index of the entry that covers `addr` at this table's level:
    /// the nine address bits for that level, taken after the bits above the
    /// address range are masked off. `None` for a table whose level is out
    /// of range.
    pub fn index_of(&self, addr: VirtAddr) -> (r: Option<usize>)
        ensures
            r == (if self.level < PAGE_LEVELS {
                Some(spec_index(addr.0, self.level as nat) as usize)
            } else {
                None::<usize>
            }),
            self.level < PAGE_LEVELS ==> 0 <= spec_index(addr.0, self.level as nat) < PAGE_ENTRY_NUM,
    {
        if self.level >= PAGE_LEVELS {
            return None;
        }
        let shift: u64 = (self.level as u64) * 9 + 12;
        let a = addr.0 & PAGE_ADDRESS_MASK;
        let index = (a >> shift) & 511;
        assert(index < 512) by (bit_vector)
            requires
                index == (a >> shift) & 511,
        ;
        Some(index as usize)
    }

    /// The table that entry `index` points at, one level down, when the
    /// entry is present and this is not the leaf level.
    pub fn next_level_table(&self, arch: &MMArch, index: usize) -> (r: Option<PageTable>)
        requires
            self.wf(),
        ensures
            r is Some == (self.level > 0 && index < PAGE_ENTRY_NUM && self.base.0 + index * pow2_level(
                self.level,
            ) <= u64::MAX && word_present(entry_word(*arch, self.phys.0, index as int))),
            r matches Some(t) ==> t.wf() && t.level == self.level - 1 && t.phys.0 == word_address(
                entry_word(*arch, self.phys.0, index as int),
            ) && t.base.0 == self.base.0 + index * pow2_level(self.level),
    {
        if self.level == 0 {
            return None;
        }
        let base = match self.entry_base(index) {
            Some(b) => b,
            None => return None,
        };
        let entry = match self.entry(arch, index) {
            Some(e) => e,
            None => return None,
        };
        match entry.address() {
            Ok(phys) => {
                proof {
                    lemma_word_address_ok(entry.data);
                }
                Some(PageTable::new(base, phys, self.level - 1))
            },
            Err(_) => None,
        }
    }
}

/// The span of virtual memory one entry of a level-`level` table maps.
pub open spec fn pow2_level(level: usize) -> int {
    if level == 0 {
        0x1000
    } else if level == 1 {
        0x20_0000
    } else if level == 2 {
        0x4000_0000
    } else {
        0x80_0000_0000
    }
}

pub(crate) proof fn lemma_shift_is_span(i: u64, level: usize)
    requires
        i < 512,
        level < PAGE_LEVELS,
    ensures
        i << ((level as u64) * 9 + 12) == i * pow2_level(level),
{
    if level == 0 {
        assert(i << 12u64 == i * 0x1000) by (bit_vector)
            requires
                i < 512,
        ;
    } else if level == 1 {
        assert(i << 21u64 == i * 0x20_0000) by (bit_vector)
            requires
                i < 512,
        ;
    } else if level == 2 {
        assert(i << 30u64 == i * 0x4000_0000) by (bit_vector)
            requires
                i < 512,
        ;
    } else {
        assert(i << 39u64 == i * 0x80_0000_0000) by (bit_vector)
            requires
                i < 512,
        ;
    }
}

impl<T: Flusher> Flusher for &mut T {
    /// Lets a borrowed flusher take over single-page flushers.
    fn consume(&mut self, flush: PageFlush) {
        (**self).consume(flush);
    }
}

impl Flusher for () {
    /// Nothing to take over: the single-page flush is dropped.
    fn consume(&mut self, flush: PageFlush) {
        flush.ignore();
    }
}

} // verus!
