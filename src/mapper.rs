//! The page mapper: installs, changes, looks up and removes mappings in the
//! table tree of one address space, allocating and freeing table frames
//! through its frame allocator.
use crate::arch::{
    phys_2_virt, spec_kind, MMArch, PageTableKind, PhysAddr, VirtAddr, ENTRY_FLAGS_MASK, ENTRY_FLAG_DEFAULT_TABLE,
    ENTRY_FLAG_PRESENT, ENTRY_FLAG_READWRITE, ENTRY_FLAG_USER, PAGE_ADDRESS_MASK, PAGE_LEVELS,
    PAGE_ENTRY_NUM, PAGE_SIZE, PHYS_ADDRESS_LIMIT, PHYS_OFFSET,
};
use crate::page::{
    bits_set, entry_word, flags_execute, flags_write, leaf_word, lemma_entry_after_write,
    lemma_index_bound, lemma_translate_same_memory, lemma_walk_basics, lemma_walk_links,
    lemma_word_address_ok, lemma_write_keeps_table, links, on_walk, page_of, pow2_level,
    root_level, spec_index, spec_translate, table_addr_ok, table_unused, walk, word_address,
    word_flags, word_present, PageEntry, PageFlags, PageFlush, PageTable,
};
use crate::page_frame::FrameAllocator;
use vstd::prelude::*;

verus! {

/// The physical addresses of a sequence of tables.
pub open spec fn table_phys(s: Seq<PageTable>) -> Seq<u64> {
    s.map_values(|t: PageTable| t.phys.0)
}

/// A table reached from the root: well formed, and its virtual range fits
/// below the top of the address space an entry can describe.
pub open spec fn reached(t: PageTable) -> bool {
    t.wf() && t.base.0 + 512 * pow2_level(t.level) <= 0x0001_0000_0000_0000
}

/// Whether `x` is one of the values in `v`.
fn contains(v: &Vec<u64>, x: u64) -> (r: bool)
    ensures
        r == v@.contains(x),
{
    let mut i: usize = 0;
    while i < v.len()
        invariant
            i <= v@.len(),
            forall|j: int| 0 <= j < i ==> v@[j] != x,
        decreases v@.len() - i,
    {
        if v[i] == x {
            return true;
        }
        i = i + 1;
    }
    false
}

/// The flags of an entry that points at a newly made table.
pub open spec fn table_entry_flags(kind: PageTableKind) -> u64 {
    ENTRY_FLAG_READWRITE | ENTRY_FLAG_DEFAULT_TABLE | if kind == PageTableKind::User {
        ENTRY_FLAG_USER
    } else {
        0
    }
}

/// An entry pointing at the table at `t` is present and holds `t`.
proof fn lemma_table_entry(t: u64, kind: PageTableKind)
    requires
        table_addr_ok(t),
    ensures
        word_present(t | table_entry_flags(kind)),
        word_address(t | table_entry_flags(kind)) == t,
{
    crate::page::lemma_aligned_bits(t);
    assert((2u64 | 1u64 | 4u64) == 7u64) by (bit_vector);
    assert((2u64 | 1u64 | 0u64) == 3u64) by (bit_vector);
    let f = table_entry_flags(kind);
    assert(f == 7 || f == 3);
    assert((t | f) & 1u64 != 0 && (t | f) & 0x0000_ffff_ffff_f000u64 == t) by (bit_vector)
        requires
            t & 0xfff == 0,
            t < 0x0001_0000_0000_0000u64,
            f == 7 || f == 3,
    ;
}

/// A leaf word built from a frame address and flags holds both unchanged.
pub proof fn lemma_leaf_word(p: u64, f: u64)
    requires
        table_addr_ok(p),
    ensures
        word_address(p | (f & ENTRY_FLAGS_MASK)) == p,
        word_flags(p | (f & ENTRY_FLAGS_MASK)) == f & ENTRY_FLAGS_MASK,
        word_present(p | (f & ENTRY_FLAGS_MASK)) == (f & crate::arch::ENTRY_FLAG_PRESENT != 0),
{
    crate::page::lemma_aligned_bits(p);
    assert(word_address(p | (f & 0xffff_0000_0000_0fffu64)) == p && word_flags(p | (f & 0xffff_0000_0000_0fffu64))
        == f & 0xffff_0000_0000_0fffu64 && ((p | (f & 0xffff_0000_0000_0fffu64)) & 1u64 != 0) == (f & 1u64 != 0))
        by (bit_vector)
        requires
            p & 0xfff == 0,
            p < 0x0001_0000_0000_0000u64,
    ;
}

/// The walk for `v` reaches the leaf level and its leaf table is none of
/// the tables above it.
pub open spec fn leaf_apart(arch: MMArch, root: u64, v: u64) -> bool {
    let w = walk(arch, root, root_level(), v);
    w.len() == PAGE_LEVELS && !w.subrange(0, PAGE_LEVELS - 1).contains(w[PAGE_LEVELS - 1])
}

/// Every word that differs between `a1` and `a2` is the entry for `v` of a
/// table of `w`, or lies in a page that `before` had not handed out and
/// `after` has.
pub open spec fn changes_within<F: FrameAllocator>(a1: MMArch, a2: MMArch, w: Seq<u64>, v: u64, before: F, after: F) -> bool {
    forall|a: u64| #[trigger] a2.word(a) != a1.word(a) ==> on_walk(w, v, a) || (!before.is_allocated(page_of(a))
        && after.is_allocated(page_of(a)))
}

proof fn lemma_changes_prefix<F: FrameAllocator>(a1: MMArch, a2: MMArch, path: Seq<u64>, w: Seq<u64>, v: u64, before: F, after: F)
    requires
        changes_within(a1, a2, path, v, before, after),
        path.len() <= w.len(),
        forall|k: int| 0 <= k < path.len() ==> w[k] == path[k],
    ensures
        changes_within(a1, a2, w, v, before, after),
{
    assert forall|a: u64| #[trigger] a2.word(a) != a1.word(a) implies on_walk(w, v, a) || (!before.is_allocated(page_of(a))
        && after.is_allocated(page_of(a))) by {
        if on_walk(path, v, a) {
            let k = choose|k: int| 0 <= k < path.len() && a == path[k] + spec_index(v, (root_level() - k) as nat) * 8;
            assert(w[k] == path[k]);
        }
    }
}

/// After an unmap of `v` whose walk was `w`, the table `w[k]` is empty and
/// was unlinked from its parent.
pub open spec fn pruned(arch: MMArch, w: Seq<u64>, k: int, unmap_parents: bool) -> bool {
    unmap_parents && table_unused(arch, w[k])
}

/// `x` is one of the tables below the root of `w` that an unmap unlinked.
pub open spec fn freed_table(arch: MMArch, w: Seq<u64>, unmap_parents: bool, x: u64) -> bool {
    (x == w[1] && pruned(arch, w, 1, unmap_parents)) || (x == w[2] && pruned(arch, w, 2, unmap_parents)) || (x
        == w[3] && pruned(arch, w, 3, unmap_parents))
}

/// How many tables an unmap unlinked.
pub open spec fn freed_count(arch: MMArch, w: Seq<u64>, unmap_parents: bool) -> nat {
    (if pruned(arch, w, 1, unmap_parents) {
        1nat
    } else {
        0nat
    }) + (if pruned(arch, w, 2, unmap_parents) {
        1nat
    } else {
        0nat
    }) + (if pruned(arch, w, 3, unmap_parents) {
        1nat
    } else {
        0nat
    })
}

/// `w[k]` is a table made for `v`: its parent's entry for `v` points at it
/// with the flags of a new table, and all its other entries are zero.
pub open spec fn made_table(arch: MMArch, w: Seq<u64>, k: int, v: u64) -> bool {
    &&& entry_word(arch, w[k - 1], spec_index(v, (root_level() - (k - 1)) as nat)) == w[k] | table_entry_flags(
        spec_kind(v),
    )
    &&& forall|j: int|
        0 <= j < PAGE_ENTRY_NUM && j != spec_index(v, (root_level() - k) as nat) ==> #[trigger] entry_word(
            arch,
            w[k],
            j,
        ) == 0
}

/// The walk for `v` ends above the leaf level, at a table whose entry for
/// `v` is not present: a table it needs is missing.
pub open spec fn walk_stops(arch: MMArch, root: u64, v: u64) -> bool {
    let w = walk(arch, root, root_level(), v);
    w.len() < PAGE_LEVELS && !word_present(
        entry_word(arch, w.last(), spec_index(v, (root_level() - (w.len() - 1)) as nat)),
    )
}

/// Every frame that `after` has handed out and `before` had not is a table
/// made for `v` on `w`.
pub open spec fn fresh_frames_made<F: FrameAllocator>(arch: MMArch, w: Seq<u64>, v: u64, before: F, after: F) -> bool {
    forall|x: u64|
        !before.is_allocated(x) && #[trigger] after.is_allocated(x) ==> exists|k: int|
            1 <= k < w.len() && w[k] == x && made_table(arch, w, k, v)
}

/// A write outside a made table's other entries and its parent's entry
/// keeps it a made table.
proof fn lemma_made_after_write(a1: MMArch, a2: MMArch, t: u64, i: int, value: u64, w: Seq<u64>, k: int, v: u64)
    requires
        made_table(a1, w, k, v),
        1 <= k < w.len(),
        table_addr_ok(t),
        table_addr_ok(w[k]),
        table_addr_ok(w[k - 1]),
        0 <= i < 512,
        a2.memory_map() == a1.memory_map().insert((t + i * 8) as u64, value),
        t != w[k - 1],
        t != w[k] || i == spec_index(v, (root_level() - k) as nat),
    ensures
        made_table(a2, w, k, v),
{
    lemma_index_bound(v, (root_level() - (k - 1)) as nat);
    lemma_entry_after_write(a1, a2, t, i, value, w[k - 1], spec_index(v, (root_level() - (k - 1)) as nat));
    assert forall|j: int| 0 <= j < PAGE_ENTRY_NUM && j != spec_index(v, (root_level() - k) as nat) implies #[trigger] entry_word(
        a2,
        w[k],
        j,
    ) == 0 by {
        lemma_entry_after_write(a1, a2, t, i, value, w[k], j);
    }
}

/// Maps virtual pages to physical frames in the table tree under one root.
pub struct PageMapper<F: FrameAllocator> {
    table_kind: PageTableKind,
    table_paddr: PhysAddr,
    frame_allocator: F,
    arch: MMArch,
}

impl<F: FrameAllocator> PageMapper<F> {
    pub closed spec fn wf(&self) -> bool {
        table_addr_ok(self.table_paddr.0) && self.frame_allocator.inv()
    }

    /// The physical address of the root table.
    pub closed spec fn root(&self) -> u64 {
        self.table_paddr.0
    }

    pub closed spec fn spec_kind(&self) -> PageTableKind {
        self.table_kind
    }

    pub closed spec fn spec_arch(&self) -> MMArch {
        self.arch
    }

    pub closed spec fn spec_allocator(&self) -> F {
        self.frame_allocator
    }

    /// A mapper for the tree whose root table is at `table_paddr`.
    pub fn new(table_kind: PageTableKind, table_paddr: PhysAddr, allocator: F, arch: MMArch) -> (r: Self)
        requires
            table_addr_ok(table_paddr.0),
            allocator.inv(),
        ensures
            r.wf(),
            r.root() == table_paddr.0,
            r.spec_kind() == table_kind,
            r.spec_allocator() == allocator,
            r.spec_arch() == arch,
    {
        PageMapper { table_kind, table_paddr, frame_allocator: allocator, arch }
    }

    /// The root table, at the top level.
    pub fn table(&self) -> (r: PageTable)
        requires
            self.wf(),
        ensures
            r.phys.0 == self.root(),
            r.base.0 == 0,
            r.level == PAGE_LEVELS - 1,
            reached(r),
    {
        PageTable::new(VirtAddr::new(0), self.table_paddr, PAGE_LEVELS - 1)
    }

    /// The tables a lookup of `virt` passes through, root first.
    fn walk_tables(&self, virt: VirtAddr) -> (r: Vec<PageTable>)
        requires
            self.wf(),
        ensures
            table_phys(r@) == walk(self.arch, self.root(), root_level(), virt.0),
            links(self.arch, table_phys(r@), virt.0),
            1 <= r@.len() <= PAGE_LEVELS,
            forall|k: int| 0 <= k < r@.len() ==> reached(#[trigger] r@[k]) && r@[k].level == PAGE_LEVELS - 1 - k,
    {
        let mut table = self.table();
        let mut tables: Vec<PageTable> = Vec::new();
        tables.push(table);
        loop
            invariant
                self.wf(),
                1 <= tables@.len() <= PAGE_LEVELS,
                table == tables@.last(),
                table.level == PAGE_LEVELS - tables@.len(),
                forall|k: int| 0 <= k < tables@.len() ==> reached(#[trigger] tables@[k]) && tables@[k].level
                    == PAGE_LEVELS - 1 - k,
                links(self.arch, table_phys(tables@), virt.0),
                table_phys(tables@)[0] == self.root(),
            ensures
                table.level == 0 || !word_present(
                    entry_word(self.arch, table.phys.0, spec_index(virt.0, table.level as nat)),
                ),
            decreases table.level,
        {
            let i = table.index_of(virt).unwrap();
            if table.level == 0 {
                break;
            }
            let next = match table.next_level_table(&self.arch, i) {
                Some(t) => t,
                None => {
                    assert(table.base.0 + i * pow2_level(table.level) <= u64::MAX) by {
                        if table.level == 1 {} else if table.level == 2 {} else {}
                    }
                    break;
                },
            };
            let ghost before = tables@;
            tables.push(next);
            proof {
                assert(table_phys(tables@) == table_phys(before).push(next.phys.0));
                assert forall|k: int| 0 <= k < table_phys(tables@).len() - 1 implies {
                    let e = #[trigger] entry_word(self.arch, table_phys(tables@)[k], spec_index(virt.0, (root_level() - k) as nat));
                    word_present(e) && word_address(e) == table_phys(tables@)[k + 1]
                } by {
                    if k < before.len() - 1 {
                        assert(table_phys(tables@)[k] == table_phys(before)[k]);
                        assert(table_phys(tables@)[k + 1] == table_phys(before)[k + 1]);
                    }
                }
                assert(next.level == table.level - 1);
                assert(reached(next)) by {
                    if table.level == 1 {} else if table.level == 2 {} else {}
                }
            }
            table = next;
        }
        proof {
            let p = table_phys(tables@);
            lemma_walk_links(self.arch, p, virt.0, 0);
            assert(p.subrange(0, p.len() as int) == p);
            assert(walk(self.arch, p.last(), (root_level() - (p.len() - 1)) as nat, virt.0) =~= seq![p.last()]);
            assert(p.subrange(0, p.len() - 1) + seq![p.last()] =~= p);
        }
        tables
    }

    /// The physical page and flags that `virt` maps to, if it is mapped.
    pub fn translate(&self, virt: VirtAddr) -> (r: Option<(PhysAddr, PageFlags)>)
        requires
            self.wf(),
        ensures
            r == (match spec_translate(self.spec_arch(), self.root(), virt.0) {
                Some((p, f)) => Some((PhysAddr(p), PageFlags { data: f })),
                None => None::<(PhysAddr, PageFlags)>,
            }),
    {
        let tables = self.walk_tables(virt);
        if tables.len() < PAGE_LEVELS {
            return None;
        }
        let leaf = tables[PAGE_LEVELS - 1];
        assert(leaf.phys.0 == table_phys(tables@)[3]);
        let i = match leaf.index_of(virt) {
            Some(i) => i,
            None => return None,
        };
        let entry = match leaf.entry(&self.arch, i) {
            Some(e) => e,
            None => return None,
        };
        match entry.address() {
            Ok(paddr) => Some((paddr, entry.flags())),
            Err(_) => None,
        }
    }

    /// Installs a mapping of the page at `virt` to the frame at `phys`,
    /// making the missing tables on the way from zeroed frames of the
    /// allocator. Fails, changing no mapping, when an address is not
    /// page-aligned, the slot is taken, a frame cannot be had, or the walk
    /// meets one table twice. Tables made before a later step fails stay in
    /// place, empty, for the next mapping under them to use.
    #[verifier::rlimit(40)]
    pub fn map_phys(&mut self, virt: VirtAddr, phys: PhysAddr, flags: PageFlags) -> (r: Option<PageFlush>)
        requires
            old(self).wf(),
        ensures
            final(self).wf(),
            final(self).root() == old(self).root(),
            final(self).spec_kind() == old(self).spec_kind(),
            !(virt.0 % PAGE_SIZE == 0 && phys.0 % PAGE_SIZE == 0 && phys.0 < PHYS_ADDRESS_LIMIT) ==> r is None
                && *final(self) == *old(self),
            forall|x: u64| #[trigger] old(self).spec_allocator().is_allocated(x) ==> final(self).spec_allocator().is_allocated(x),
            changes_within(
                old(self).spec_arch(),
                final(self).spec_arch(),
                walk(final(self).spec_arch(), final(self).root(), root_level(), virt.0),
                virt.0,
                old(self).spec_allocator(),
                final(self).spec_allocator(),
            ),
            fresh_frames_made(
                final(self).spec_arch(),
                walk(final(self).spec_arch(), final(self).root(), root_level(), virt.0),
                virt.0,
                old(self).spec_allocator(),
                final(self).spec_allocator(),
            ),
            r is None && virt.0 % PAGE_SIZE == 0 && phys.0 % PAGE_SIZE == 0 && phys.0 < PHYS_ADDRESS_LIMIT && (leaf_word(
                old(self).spec_arch(),
                old(self).root(),
                virt.0,
            ) is None || leaf_word(old(self).spec_arch(), old(self).root(), virt.0) == Some(0u64)) && walk(
                old(self).spec_arch(),
                old(self).root(),
                root_level(),
                virt.0,
            ).no_duplicates() ==> walk_stops(final(self).spec_arch(), final(self).root(), virt.0),
            r is None ==> spec_translate(final(self).spec_arch(), final(self).root(), virt.0)
                == spec_translate(old(self).spec_arch(), old(self).root(), virt.0),
            r matches Some(f) ==> {
                &&& f.virt == virt
                &&& virt.0 % PAGE_SIZE == 0 && phys.0 % PAGE_SIZE == 0 && phys.0 < PHYS_ADDRESS_LIMIT
                &&& spec_translate(final(self).spec_arch(), final(self).root(), virt.0) == if flags.data
                    & ENTRY_FLAG_PRESENT != 0 {
                    Some((phys.0, flags.data & ENTRY_FLAGS_MASK))
                } else {
                    None
                }
                &&& leaf_word(final(self).spec_arch(), final(self).root(), virt.0) == Some(
                    phys.0 | (flags.data & ENTRY_FLAGS_MASK),
                )
                &&& walk(final(self).spec_arch(), final(self).root(), root_level(), virt.0).no_duplicates()
                &&& (leaf_word(old(self).spec_arch(), old(self).root(), virt.0) is None || leaf_word(
                    old(self).spec_arch(),
                    old(self).root(),
                    virt.0,
                ) == Some(0u64))
            },
            virt.0 % PAGE_SIZE == 0 && phys.0 % PAGE_SIZE == 0 && phys.0 < PHYS_ADDRESS_LIMIT && leaf_word(
                old(self).spec_arch(),
                old(self).root(),
                virt.0,
            ) == Some(0u64) && walk(old(self).spec_arch(), old(self).root(), root_level(), virt.0).no_duplicates()
                ==> r is Some,
    {
        proof {
            crate::arch::lemma_page_size_pow2();
        }
        if !(virt.check_aligned(PAGE_SIZE) && phys.check_aligned(PAGE_SIZE)) || phys.0 >= PHYS_ADDRESS_LIMIT {
            return None;
        }
        let entry = PageEntry::new(phys.0 | (flags.data & ENTRY_FLAGS_MASK));
        let mut table = self.table();
        let mut path: Vec<u64> = Vec::new();
        path.push(table.phys.0);
        let ghost mut allocated = false;
        loop
            invariant
                self.wf(),
                self.table_paddr == old(self).table_paddr,
                self.table_kind == old(self).table_kind,
                virt.0 % PAGE_SIZE == 0 && phys.0 % PAGE_SIZE == 0 && phys.0 < PHYS_ADDRESS_LIMIT,
                entry.data == phys.0 | (flags.data & ENTRY_FLAGS_MASK),
                reached(table),
                1 <= path@.len() <= PAGE_LEVELS,
                table.level == PAGE_LEVELS - path@.len(),
                path@.last() == table.phys.0,
                path@[0] == self.root(),
                path@.no_duplicates(),
                forall|k: int| 0 <= k < path@.len() ==> table_addr_ok(#[trigger] path@[k]),
                links(self.arch, path@, virt.0),
                !allocated ==> *self == *old(self),
                changes_within(old(self).arch, self.arch, path@, virt.0, old(self).frame_allocator, self.frame_allocator),
                fresh_frames_made(self.arch, path@, virt.0, old(self).frame_allocator, self.frame_allocator),
                allocated ==> entry_word(self.arch, table.phys.0, spec_index(virt.0, table.level as nat)) == 0,
                forall|x: u64| #[trigger] old(self).frame_allocator.is_allocated(x) ==> self.frame_allocator.is_allocated(x),
                allocated ==> leaf_word(old(self).arch, old(self).root(), virt.0) is None
                    && spec_translate(self.arch, self.root(), virt.0) is None,
            decreases table.level,
        {
            let i = table.index_of(virt).unwrap();
            proof {
                lemma_walk_links(self.arch, path@, virt.0, 0);
                assert(path@.subrange(0, path@.len() as int) == path@);
            }
            if table.level == 0 {
                if table.entry_mapped(&self.arch, i).unwrap() {
                    proof {
                        assert(walk(self.arch, table.phys.0, 0, virt.0) == seq![table.phys.0]);
                        assert(path@.subrange(0, path@.len() - 1) + seq![table.phys.0] =~= path@);
                        assert(walk(self.arch, self.root(), root_level(), virt.0) == path@);
                    }
                    return None;
                }
                let ghost before = self.arch;
                table.set_entry(&mut self.arch, i, entry);
                proof {
                    assert(walk(before, table.phys.0, 0, virt.0) == seq![table.phys.0]);
                    assert(path@.subrange(0, path@.len() - 1) + seq![table.phys.0] =~= path@);
                    assert forall|k: int| 0 <= k < path@.len() - 1 implies {
                        let e = #[trigger] entry_word(self.arch, path@[k], spec_index(virt.0, (root_level() - k) as nat));
                        word_present(e) && word_address(e) == path@[k + 1]
                    } by {
                        lemma_index_bound(virt.0, (root_level() - k) as nat);
                        assert(path@[k] != table.phys.0);
                        lemma_entry_after_write(before, self.arch, table.phys.0, i as int, entry.data,
                            path@[k], spec_index(virt.0, (root_level() - k) as nat));
                    }
                    lemma_walk_links(self.arch, path@, virt.0, 0);
                    assert(walk(self.arch, table.phys.0, 0, virt.0) == seq![table.phys.0]);
                    lemma_entry_after_write(before, self.arch, table.phys.0, i as int, entry.data, table.phys.0, i as int);
                    assert(walk(self.arch, self.root(), root_level(), virt.0) == path@);
                    lemma_leaf_word(phys.0, flags.data);
                    assert forall|x: u64| !old(self).frame_allocator.is_allocated(x) && #[trigger] self.frame_allocator.is_allocated(x)
                        implies exists|k: int| 1 <= k < path@.len() && path@[k] == x && made_table(self.arch, path@, k, virt.0) by {
                        let k = choose|k: int| 1 <= k < path@.len() && path@[k] == x && made_table(before, path@, k, virt.0);
                        lemma_made_after_write(before, self.arch, table.phys.0, i as int, entry.data, path@, k, virt.0);
                    }
                    assert forall|a: u64| #[trigger] self.arch.word(a) != old(self).arch.word(a) implies on_walk(path@, virt.0, a) || (
                        !old(self).frame_allocator.is_allocated(page_of(a)) && self.frame_allocator.is_allocated(page_of(a))) by {
                        if self.arch.word(a) != before.word(a) {
                            assert(a == path@[path@.len() - 1] + spec_index(virt.0, (root_level() - (path@.len() - 1)) as nat) * 8);
                        }
                    }
                }
                return Some(PageFlush::new(virt));
            }
            let e = table.entry(&self.arch, i).unwrap();
            if e.present() {
                proof {
                    assert(0u64 & 1u64 == 0u64) by (bit_vector);
                    assert(!allocated);
                }
                let child = e.data & PAGE_ADDRESS_MASK;
                if contains(&path, child) {
                    proof {
                        if !allocated {
                            let w = walk(self.arch, self.root(), root_level(), virt.0);
                            let rest = walk(self.arch, child, (table.level - 1) as nat, virt.0);
                            lemma_walk_basics(self.arch, child, (table.level - 1) as nat, virt.0);
                            assert(walk(self.arch, table.phys.0, table.level as nat, virt.0) == seq![table.phys.0] + rest);
                            assert(w =~= path@ + rest);
                            let j = path@.index_of(child);
                            assert(w[j] == child && w[path@.len() as int] == child);
                        }
                        let w = walk(self.arch, self.root(), root_level(), virt.0);
                        lemma_walk_basics(self.arch, table.phys.0, table.level as nat, virt.0);
                        assert(w == path@.subrange(0, path@.len() - 1) + walk(self.arch, table.phys.0, table.level as nat, virt.0));
                        assert forall|k: int| 0 <= k < path@.len() implies w[k] == path@[k] by {
                            if k < path@.len() - 1 {
                                assert(w[k] == path@.subrange(0, path@.len() - 1)[k]);
                            }
                        }
                        lemma_walk_basics(self.arch, self.root(), root_level(), virt.0);
                        lemma_changes_prefix(old(self).arch, self.arch, path@, w, virt.0, old(self).frame_allocator, self.frame_allocator);
                        assert forall|x: u64| !old(self).frame_allocator.is_allocated(x) && #[trigger] self.frame_allocator.is_allocated(x)
                            implies exists|k: int| 1 <= k < w.len() && w[k] == x && made_table(self.arch, w, k, virt.0) by {
                            let k = choose|k: int| 1 <= k < path@.len() && path@[k] == x && made_table(self.arch, path@, k, virt.0);
                            assert(w[k] == path@[k] && w[k - 1] == path@[k - 1]);
                        }
                    }
                    return None;
                }
                let next = table.next_level_table(&self.arch, i).unwrap();
                proof {
                    lemma_word_address_ok(e.data);
                }
                let ghost before = path@;
                path.push(child);
                proof {
                    assert forall|k: int| 0 <= k < path@.len() - 1 implies {
                        let e = #[trigger] entry_word(self.arch, path@[k], spec_index(virt.0, (root_level() - k) as nat));
                        word_present(e) && word_address(e) == path@[k + 1]
                    } by {
                        if k < before.len() - 1 {
                            assert(path@[k] == before[k] && path@[k + 1] == before[k + 1]);
                        }
                    }
                    assert(reached(next)) by {
                        if table.level == 1 {} else if table.level == 2 {} else {}
                    }
                    lemma_changes_prefix(old(self).arch, self.arch, before, path@, virt.0, old(self).frame_allocator, self.frame_allocator);
                    assert forall|x: u64| !old(self).frame_allocator.is_allocated(x) && #[trigger] self.frame_allocator.is_allocated(x)
                        implies exists|k: int| 1 <= k < path@.len() && path@[k] == x && made_table(self.arch, path@, k, virt.0) by {
                        let k = choose|k: int| 1 <= k < before.len() && before[k] == x && made_table(self.arch, before, k, virt.0);
                        assert(path@[k] == before[k] && path@[k - 1] == before[k - 1]);
                    }
                }
                table = next;
            } else {
                proof {
                    assert(walk(self.arch, table.phys.0, table.level as nat, virt.0) == seq![table.phys.0]);
                    assert(path@.subrange(0, path@.len() - 1) + seq![table.phys.0] =~= path@);
                    lemma_walk_basics(self.arch, self.root(), root_level(), virt.0);
                }
                proof {
                    assert(walk(self.arch, self.root(), root_level(), virt.0) == path@);
                }
                let ghost s_pre = self.frame_allocator;
                let frame = match self.frame_allocator.allocate_one() {
                    Some(f) => f,
                    None => {
                        proof {
                            assert forall|a: u64| #[trigger] self.arch.word(a) != old(self).arch.word(a) implies on_walk(path@, virt.0, a) || (
                                !old(self).frame_allocator.is_allocated(page_of(a)) && self.frame_allocator.is_allocated(page_of(a))) by {
                                assert(self.frame_allocator.is_allocated(page_of(a)) == s_pre.is_allocated(page_of(a)));
                            }
                            assert forall|x: u64| !old(self).frame_allocator.is_allocated(x) && #[trigger] self.frame_allocator.is_allocated(x)
                                implies exists|k: int| 1 <= k < path@.len() && path@[k] == x && made_table(self.arch, path@, k, virt.0) by {
                                assert(s_pre.is_allocated(x));
                            }
                        }
                        return None;
                    },
                };
                let ghost s_post = self.frame_allocator;
                if contains(&path, frame.0) {
                    self.frame_allocator.free_one(frame);
                    proof {
                        assert forall|a: u64| #[trigger] self.arch.word(a) != old(self).arch.word(a) implies on_walk(path@, virt.0, a) || (
                            !old(self).frame_allocator.is_allocated(page_of(a)) && self.frame_allocator.is_allocated(page_of(a))) by {
                            if !on_walk(path@, virt.0, a) {
                                assert(s_pre.is_allocated(page_of(a)));
                                assert(!s_pre.is_allocated(frame.0));
                                assert(s_post.is_allocated(page_of(a)));
                                assert(self.frame_allocator.is_allocated(page_of(a)));
                            }
                        }
                        assert forall|x: u64| #[trigger] old(self).frame_allocator.is_allocated(x) implies self.frame_allocator.is_allocated(x) by {
                            assert(s_pre.is_allocated(x));
                            assert(s_post.is_allocated(x));
                        }
                        assert forall|x: u64| !old(self).frame_allocator.is_allocated(x) && #[trigger] self.frame_allocator.is_allocated(x)
                            implies exists|k: int| 1 <= k < path@.len() && path@[k] == x && made_table(self.arch, path@, k, virt.0) by {
                            assert(s_post.is_allocated(x));
                            assert(x != frame.0);
                            assert(s_pre.is_allocated(x));
                        }
                    }
                    return None;
                }
                let new_table = PageTable::new(table.base, frame, table.level - 1);
                let ghost a0 = self.arch;
                new_table.clear(&mut self.arch);
                let ghost a1 = self.arch;
                let kind = virt.kind();
                let table_flags = ENTRY_FLAG_READWRITE | ENTRY_FLAG_DEFAULT_TABLE | if kind == PageTableKind::User {
                    ENTRY_FLAG_USER
                } else {
                    0
                };
                table.set_entry(&mut self.arch, i, PageEntry::new(frame.0 | table_flags));
                proof {
                    lemma_table_entry(frame.0, kind);
                }
                let ghost before = path@;
                path.push(frame.0);
                proof {
                    assert forall|k: int| 0 <= k < path@.len() - 1 implies {
                        let e = #[trigger] entry_word(self.arch, path@[k], spec_index(virt.0, (root_level() - k) as nat));
                        word_present(e) && word_address(e) == path@[k + 1]
                    } by {
                        let idx = spec_index(virt.0, (root_level() - k) as nat);
                        lemma_index_bound(virt.0, (root_level() - k) as nat);
                        lemma_entry_after_write(a1, self.arch, table.phys.0, i as int, frame.0 | table_flags,
                            path@[k], idx);
                        if k < before.len() - 1 {
                            assert(path@[k] == before[k] && path@[k + 1] == before[k + 1]);
                            assert(before[k] != frame.0);
                            assert(entry_word(a1, path@[k], idx) == entry_word(a0, path@[k], idx));
                        }
                    }
                    let nl = (table.level - 1) as nat;
                    assert(0u64 & 1u64 == 0u64) by (bit_vector);
                    lemma_index_bound(virt.0, nl);
                    assert(entry_word(self.arch, frame.0, spec_index(virt.0, nl)) == 0) by {
                        lemma_entry_after_write(a1, self.arch, table.phys.0, i as int, frame.0 | table_flags,
                            frame.0, spec_index(virt.0, nl));
                    }
                    assert(walk(self.arch, frame.0, nl, virt.0) == seq![frame.0]);
                    lemma_walk_links(self.arch, path@, virt.0, 0);
                    assert(path@.subrange(0, path@.len() as int) == path@);
                    assert(path@.subrange(0, path@.len() - 1) + seq![frame.0] =~= path@);
                    assert(reached(new_table)) by {
                        if table.level == 1 {} else if table.level == 2 {} else {}
                    }
                    assert(!old(self).frame_allocator.is_allocated(frame.0)) by {
                        if old(self).frame_allocator.is_allocated(frame.0) {
                            assert(s_pre.is_allocated(frame.0));
                        }
                    }
                    assert(self.frame_allocator.is_allocated(frame.0));
                    assert forall|a: u64| #[trigger] self.arch.word(a) != old(self).arch.word(a) implies on_walk(path@, virt.0, a) || (
                        !old(self).frame_allocator.is_allocated(page_of(a)) && self.frame_allocator.is_allocated(page_of(a))) by {
                        if self.arch.word(a) != a1.word(a) {
                            assert(a == path@[path@.len() - 2] + spec_index(virt.0, (root_level() - (path@.len() - 2)) as nat) * 8);
                        } else if a1.word(a) != a0.word(a) {
                            assert(page_of(a) == frame.0);
                        } else {
                            if on_walk(before, virt.0, a) {
                                let k = choose|k: int| 0 <= k < before.len() && a == before[k] + spec_index(virt.0, (root_level() - k) as nat) * 8;
                                assert(path@[k] == before[k]);
                            } else {
                                assert(s_pre.is_allocated(page_of(a)));
                                assert(s_post.is_allocated(page_of(a)));
                            }
                        }
                    }
                    assert(table_flags == table_entry_flags(spec_kind(virt.0)));
                    assert forall|x: u64| !old(self).frame_allocator.is_allocated(x) && #[trigger] self.frame_allocator.is_allocated(x)
                        implies exists|k: int| 1 <= k < path@.len() && path@[k] == x && made_table(self.arch, path@, k, virt.0) by {
                        let n = path@.len() - 1;
                        if x == frame.0 {
                            lemma_index_bound(virt.0, (root_level() - (n - 1)) as nat);
                            lemma_entry_after_write(a1, self.arch, table.phys.0, i as int, frame.0 | table_flags,
                                table.phys.0, i as int);
                            assert forall|j: int| 0 <= j < PAGE_ENTRY_NUM && j != spec_index(virt.0, (root_level() - n) as nat)
                                implies #[trigger] entry_word(self.arch, path@[n], j) == 0 by {
                                lemma_entry_after_write(a1, self.arch, table.phys.0, i as int, frame.0 | table_flags,
                                    frame.0, j);
                            }
                            assert(made_table(self.arch, path@, n, virt.0));
                        } else {
                            assert(s_post.is_allocated(x));
                            assert(s_pre.is_allocated(x));
                            let k = choose|k: int| 1 <= k < before.len() && before[k] == x && made_table(a0, before, k, virt.0);
                            assert(before[k] != frame.0 && before[k - 1] != frame.0);
                            assert(made_table(a1, before, k, virt.0)) by {
                                assert forall|j: int| 0 <= j < PAGE_ENTRY_NUM && j != spec_index(virt.0, (root_level() - k) as nat)
                                    implies #[trigger] entry_word(a1, before[k], j) == 0 by {
                                    assert(entry_word(a1, before[k], j) == entry_word(a0, before[k], j));
                                }
                                lemma_index_bound(virt.0, (root_level() - (k - 1)) as nat);
                            }
                            lemma_made_after_write(a1, self.arch, table.phys.0, i as int, frame.0 | table_flags, before, k, virt.0);
                            assert(path@[k] == before[k] && path@[k - 1] == before[k - 1]);
                        }
                    }
                    allocated = true;
                }
                table = new_table;
            }
        }
    }

    /// Replaces the flags of the mapping of `virt`, keeping its frame.
    /// Fails, changing nothing, when `virt` is not mapped or its leaf table
    /// recurs above it in the walk.
    pub fn remap(&mut self, virt: VirtAddr, flags: PageFlags) -> (r: Option<PageFlush>)
        requires
            old(self).wf(),
        ensures
            final(self).wf(),
            final(self).root() == old(self).root(),
            final(self).spec_kind() == old(self).spec_kind(),
            final(self).spec_allocator() == old(self).spec_allocator(),
            r is Some == (spec_translate(old(self).spec_arch(), old(self).root(), virt.0) is Some && leaf_apart(
                old(self).spec_arch(),
                old(self).root(),
                virt.0,
            )),
            r is None ==> final(self).spec_arch() == old(self).spec_arch(),
            forall|a: u64| #[trigger] final(self).spec_arch().word(a) != old(self).spec_arch().word(a)
                ==> on_walk(walk(old(self).spec_arch(), old(self).root(), root_level(), virt.0), virt.0, a),
            r matches Some(f) ==> {
                let old_word = leaf_word(old(self).spec_arch(), old(self).root(), virt.0)->Some_0;
                let new_word = (old_word & !ENTRY_FLAGS_MASK) | (flags.data & ENTRY_FLAGS_MASK);
                &&& f.virt == virt
                &&& leaf_word(final(self).spec_arch(), final(self).root(), virt.0) == Some(new_word)
                &&& word_address(new_word) == word_address(old_word)
                &&& word_flags(new_word) == word_flags(flags.data)
            },
    {
        let tables = self.walk_tables(virt);
        if tables.len() < PAGE_LEVELS {
            return None;
        }
        let leaf = tables[3];
        if leaf.phys.0 == tables[0].phys.0 || leaf.phys.0 == tables[1].phys.0 || leaf.phys.0 == tables[2].phys.0 {
            proof {
                let w = walk(self.arch, self.root(), root_level(), virt.0);
                assert(table_phys(tables@)[3] == leaf.phys.0);
                assert(w.subrange(0, 3)[0] == w[0] && w.subrange(0, 3)[1] == w[1] && w.subrange(0, 3)[2] == w[2]);
            }
            return None;
        }
        proof {
            let w = walk(self.arch, self.root(), root_level(), virt.0);
            assert(w[0] == tables@[0].phys.0 && w[1] == tables@[1].phys.0 && w[2] == tables@[2].phys.0 && w[3] == leaf.phys.0);
            assert(!w.subrange(0, 3).contains(w[3])) by {
                if w.subrange(0, 3).contains(w[3]) {
                    let j = w.subrange(0, 3).index_of(w[3]);
                    assert(w.subrange(0, 3)[j] == w[j]);
                }
            }
        }
        let i = leaf.index_of(virt).unwrap();
        let mut entry = leaf.entry(&self.arch, i).unwrap();
        if !entry.present() {
            return None;
        }
        entry.set_flags(flags);
        let ghost before = self.arch;
        leaf.set_entry(&mut self.arch, i, entry);
        proof {
            let path = table_phys(tables@);
            assert forall|k: int| 0 <= k < path.len() - 1 implies {
                let e = #[trigger] entry_word(self.arch, path[k], spec_index(virt.0, (root_level() - k) as nat));
                word_present(e) && word_address(e) == path[k + 1]
            } by {
                lemma_index_bound(virt.0, (root_level() - k) as nat);
                lemma_entry_after_write(before, self.arch, leaf.phys.0, i as int, entry.data, path[k],
                    spec_index(virt.0, (root_level() - k) as nat));
                assert(path[k] == tables@[k].phys.0);
            }
            lemma_walk_links(self.arch, path, virt.0, 0);
            assert(path.subrange(0, 3) + seq![path[3]] =~= path);
            lemma_entry_after_write(before, self.arch, leaf.phys.0, i as int, entry.data, leaf.phys.0, i as int);
            assert forall|a: u64| #[trigger] self.arch.word(a) != before.word(a) implies on_walk(path, virt.0, a) by {
                assert(a == path[3] + spec_index(virt.0, (root_level() - 3) as nat) * 8);
            }
        }
        Some(PageFlush::new(virt))
    }

    /// Removes the mapping of `virt` and returns its frame and flags. With
    /// `unmap_parents`, each table on the way up that no longer has a present
    /// entry is unlinked from its parent and its frame handed back to the
    /// allocator. Fails, changing nothing, when `virt` is not page-aligned or
    /// not mapped, or the walk meets one table twice.
    pub fn unmap_phys(&mut self, virt: VirtAddr, unmap_parents: bool) -> (r: Option<(PhysAddr, PageFlags, PageFlush)>)
        requires
            old(self).wf(),
        ensures
            final(self).wf(),
            final(self).root() == old(self).root(),
            final(self).spec_kind() == old(self).spec_kind(),
            r is Some == (virt.0 % PAGE_SIZE == 0 && spec_translate(old(self).spec_arch(), old(self).root(), virt.0) is Some
                && walk(old(self).spec_arch(), old(self).root(), root_level(), virt.0).no_duplicates()),
            r is None ==> *final(self) == *old(self),
            forall|a: u64| #[trigger] final(self).spec_arch().word(a) != old(self).spec_arch().word(a)
                ==> on_walk(walk(old(self).spec_arch(), old(self).root(), root_level(), virt.0), virt.0, a),
            r matches Some((p, f, fl)) ==> {
                let w = walk(old(self).spec_arch(), old(self).root(), root_level(), virt.0);
                let a = final(self).spec_arch();
                &&& spec_translate(old(self).spec_arch(), old(self).root(), virt.0) == Some((p.0, f.data))
                &&& fl.virt == virt
                &&& entry_word(a, w[3], spec_index(virt.0, 0)) == 0
                &&& spec_translate(a, final(self).root(), virt.0) is None
                &&& forall|k: int| 1 <= k < PAGE_LEVELS ==> {
                    let parent_entry = #[trigger] entry_word(a, w[k - 1], spec_index(virt.0, (root_level() - (k - 1)) as nat));
                    if unmap_parents && table_unused(a, w[k]) {
                        parent_entry == 0 && !final(self).spec_allocator().is_allocated(w[k])
                    } else {
                        parent_entry == entry_word(old(self).spec_arch(), w[k - 1], spec_index(virt.0, (root_level() - (k - 1)) as nat))
                    }
                }
                &&& forall|x: u64| #[trigger] final(self).spec_allocator().is_allocated(x)
                    == (old(self).spec_allocator().is_allocated(x) && !freed_table(a, w, unmap_parents, x))
                &&& old(self).spec_allocator().is_allocated(w[1]) && old(self).spec_allocator().is_allocated(w[2])
                    && old(self).spec_allocator().is_allocated(w[3]) ==> final(self).spec_allocator().used_frames()
                    + freed_count(a, w, unmap_parents) == old(self).spec_allocator().used_frames()
            },
            !unmap_parents ==> final(self).spec_allocator() == old(self).spec_allocator(),
    {
        proof {
            crate::arch::lemma_page_size_pow2();
        }
        if !virt.check_aligned(PAGE_SIZE) {
            return None;
        }
        let tables = self.walk_tables(virt);
        if tables.len() < PAGE_LEVELS {
            return None;
        }
        let ghost w = table_phys(tables@);
        let t0 = tables[0];
        let t1 = tables[1];
        let t2 = tables[2];
        let t3 = tables[3];
        assert(w[0] == t0.phys.0 && w[1] == t1.phys.0 && w[2] == t2.phys.0 && w[3] == t3.phys.0);
        if t0.phys.0 == t1.phys.0 || t0.phys.0 == t2.phys.0 || t0.phys.0 == t3.phys.0 || t1.phys.0 == t2.phys.0
            || t1.phys.0 == t3.phys.0 || t2.phys.0 == t3.phys.0 {
            assert(!w.no_duplicates());
            return None;
        }
        assert(w.no_duplicates()) by {
            assert forall|a: int, b: int| 0 <= a < w.len() && 0 <= b < w.len() && a != b implies w[a] != w[b] by {}
        }
        let i = t3.index_of(virt).unwrap();
        let entry = t3.entry(&self.arch, i).unwrap();
        let paddr = match entry.address() {
            Ok(p) => p,
            Err(_) => return None,
        };
        let flags = entry.flags();
        let ghost a_old = self.arch;
        t3.set_entry(&mut self.arch, i, PageEntry::new(0));
        let ghost a_leaf = self.arch;
        proof {
            lemma_write_keeps_table(a_old, a_leaf, w[3], i as int, 0, w[0]);
            lemma_write_keeps_table(a_old, a_leaf, w[3], i as int, 0, w[1]);
            lemma_write_keeps_table(a_old, a_leaf, w[3], i as int, 0, w[2]);
            lemma_entry_after_write(a_old, a_leaf, w[3], i as int, 0, w[3], i as int);
            assert forall|a: u64| #[trigger] a_leaf.word(a) != a_old.word(a) implies on_walk(w, virt.0, a) by {
                assert(a == w[3] + spec_index(virt.0, (root_level() - 3) as nat) * 8);
            }
        }
        let mut k: usize = 3;
        while k > 0 && unmap_parents
            invariant
                self.wf(),
                self.table_paddr == old(self).table_paddr,
                self.table_kind == old(self).table_kind,
                1 <= i < 512 || i == 0,
                k <= 3,
                !unmap_parents ==> k == 3,
                tables@.len() == 4,
                w == table_phys(tables@),
                w.no_duplicates(),
                forall|j: int| 0 <= j < 4 ==> reached(#[trigger] tables@[j]) && tables@[j].level == 3 - j,
                entry_word(self.arch, w[3], i as int) == 0,
                i as int == spec_index(virt.0, 0),
                forall|j: int, jj: int| 0 <= j < k && 0 <= jj < 512 ==> #[trigger] entry_word(self.arch, w[j], jj)
                    == entry_word(a_leaf, w[j], jj),
                forall|kk: int| k < kk < 4 ==> table_unused(self.arch, #[trigger] w[kk])
                    && entry_word(self.arch, w[kk - 1], spec_index(virt.0, (root_level() - (kk - 1)) as nat)) == 0
                    && !self.frame_allocator.is_allocated(w[kk]),
                forall|x: u64| #[trigger] self.frame_allocator.is_allocated(x) == (old(self).frame_allocator.is_allocated(x)
                    && !((k < 1 && x == w[1]) || (k < 2 && x == w[2]) || (k < 3 && x == w[3]))),
                old(self).frame_allocator.is_allocated(w[1]) && old(self).frame_allocator.is_allocated(w[2])
                    && old(self).frame_allocator.is_allocated(w[3]) ==> self.frame_allocator.used_frames() + (3 - k)
                    == old(self).frame_allocator.used_frames(),
                k == 3 ==> self.frame_allocator == old(self).frame_allocator,
                forall|a: u64| #[trigger] self.arch.word(a) != a_old.word(a) ==> on_walk(w, virt.0, a),
            ensures
                k == 0 || !unmap_parents || !table_unused(self.arch, w[k as int]),
            decreases k,
        {
            let child = tables[k];
            let parent = tables[k - 1];
            if !child.is_unused(&self.arch) {
                break;
            }
            let pi = parent.index_of(virt).unwrap();
            let ghost a1 = self.arch;
            parent.set_entry(&mut self.arch, pi, PageEntry::new(0));
            let ghost al1 = self.frame_allocator;
            self.frame_allocator.free_one(child.phys);
            proof {
                assert(w[k - 1] == parent.phys.0 && w[k as int] == child.phys.0);
                lemma_entry_after_write(a1, self.arch, w[k - 1], pi as int, 0, w[k - 1], pi as int);
                lemma_write_keeps_table(a1, self.arch, w[k - 1], pi as int, 0, w[k as int]);
                if k < 3 {
                    lemma_write_keeps_table(a1, self.arch, w[k - 1], pi as int, 0, w[3]);
                }
                assert forall|a: u64| #[trigger] self.arch.word(a) != a_old.word(a) implies on_walk(w, virt.0, a) by {
                    if self.arch.word(a) != a1.word(a) {
                        assert(a == w[k - 1] + spec_index(virt.0, (root_level() - (k - 1)) as nat) * 8);
                    }
                }
                assert forall|j: int, jj: int| 0 <= j < k - 1 && 0 <= jj < 512 implies #[trigger] entry_word(self.arch, w[j], jj)
                    == entry_word(a_leaf, w[j], jj) by {
                    lemma_write_keeps_table(a1, self.arch, w[k - 1], pi as int, 0, w[j]);
                }
                assert forall|kk: int| k - 1 < kk < 4 implies table_unused(self.arch, #[trigger] w[kk])
                    && entry_word(self.arch, w[kk - 1], spec_index(virt.0, (root_level() - (kk - 1)) as nat)) == 0
                    && !self.frame_allocator.is_allocated(w[kk]) by {
                    if kk > k {
                        lemma_write_keeps_table(a1, self.arch, w[k - 1], pi as int, 0, w[kk]);
                        lemma_index_bound(virt.0, (root_level() - (kk - 1)) as nat);
                        lemma_entry_after_write(a1, self.arch, w[k - 1], pi as int, 0, w[kk - 1],
                            spec_index(virt.0, (root_level() - (kk - 1)) as nat));
                        assert(!al1.is_allocated(w[kk]));
                    }
                }
            }
            k = k - 1;
        }
        proof {
            let a = self.arch;
            let kf = k as int;
            // The tables above the highest one touched still link down to it.
            assert forall|j: int| 0 <= j < kf implies {
                let e = #[trigger] entry_word(a, w[j], spec_index(virt.0, (root_level() - j) as nat));
                word_present(e) && word_address(e) == w[j + 1]
            } by {
                lemma_index_bound(virt.0, (root_level() - j) as nat);
                assert(entry_word(a, w[j], spec_index(virt.0, (root_level() - j) as nat)) == entry_word(
                    a_old,
                    w[j],
                    spec_index(virt.0, (root_level() - j) as nat),
                ));
            }
            let prefix = w.subrange(0, kf + 1);
            assert forall|j: int| 0 <= j < prefix.len() - 1 implies {
                let e = #[trigger] entry_word(a, prefix[j], spec_index(virt.0, (root_level() - j) as nat));
                word_present(e) && word_address(e) == prefix[j + 1]
            } by {
                assert(prefix[j] == w[j] && prefix[j + 1] == w[j + 1]);
                assert(entry_word(a, w[j], spec_index(virt.0, (root_level() - j) as nat)) == entry_word(a, prefix[j], spec_index(virt.0, (root_level() - j) as nat)));
            }
            lemma_walk_links(a, prefix, virt.0, 0);
            assert(prefix[0] == self.root());
            assert(0u64 & 1u64 == 0u64) by (bit_vector);
            if kf == 3 {
                assert(walk(a, w[3], 0, virt.0) == seq![w[3]]);
                assert(prefix.subrange(0, 3) + seq![w[3]] =~= w);
                assert(walk(a, self.root(), root_level(), virt.0) == w);
            } else {
                let lv = (root_level() - kf) as nat;
                lemma_index_bound(virt.0, lv);
                assert(entry_word(a, w[kf], spec_index(virt.0, lv)) == 0);
                assert(walk(a, w[kf], lv, virt.0) == seq![w[kf]]);
                assert(walk(a, self.root(), root_level(), virt.0).len() == kf + 1);
            }
            assert forall|kk: int| 1 <= kk < PAGE_LEVELS implies {
                let parent_entry = #[trigger] entry_word(a, w[kk - 1], spec_index(virt.0, (root_level() - (kk - 1)) as nat));
                if unmap_parents && table_unused(a, w[kk]) {
                    parent_entry == 0 && !self.spec_allocator().is_allocated(w[kk])
                } else {
                    parent_entry == entry_word(old(self).spec_arch(), w[kk - 1], spec_index(virt.0, (root_level() - (kk - 1)) as nat))
                }
            } by {
                let idx = spec_index(virt.0, (root_level() - (kk - 1)) as nat);
                lemma_index_bound(virt.0, (root_level() - (kk - 1)) as nat);
                if kk > kf {
                } else {
                    assert(entry_word(a, w[kk - 1], idx) == entry_word(a_leaf, w[kk - 1], idx));
                    if kk < kf {
                        let own = spec_index(virt.0, (root_level() - kk) as nat);
                        lemma_index_bound(virt.0, (root_level() - kk) as nat);
                        assert(entry_word(a, w[kk], own) == entry_word(a_leaf, w[kk], own));
                        assert(!table_unused(a, w[kk]));
                    }
                }
            }
            assert(w == walk(old(self).spec_arch(), old(self).root(), root_level(), virt.0));
            assert(a_old == old(self).spec_arch());
            assert(spec_translate(old(self).spec_arch(), old(self).root(), virt.0) == Some((paddr.0, flags.data)));
            assert(entry_word(a, w[3], spec_index(virt.0, 0)) == 0);
            assert(spec_translate(a, self.root(), virt.0) is None);
            assert(forall|x: u64| #[trigger] self.spec_allocator().is_allocated(x)
                    ==> old(self).spec_allocator().is_allocated(x));

            assert forall|kk: int| 1 <= kk < 4 implies pruned(a, w, kk, unmap_parents) == (kk > kf) by {
                if kk < kf {
                    let own = spec_index(virt.0, (root_level() - kk) as nat);
                    lemma_index_bound(virt.0, (root_level() - kk) as nat);
                    assert(entry_word(a, w[kk], own) == entry_word(a_leaf, w[kk], own));
                    assert(!table_unused(a, w[kk]));
                }
            }
            assert(freed_count(a, w, unmap_parents) == 3 - kf);
            assert forall|x: u64| #[trigger] self.spec_allocator().is_allocated(x)
                == (old(self).spec_allocator().is_allocated(x) && !freed_table(a, w, unmap_parents, x)) by {
                assert(self.frame_allocator.is_allocated(x) == (old(self).frame_allocator.is_allocated(x)
                    && !((kf < 1 && x == w[1]) || (kf < 2 && x == w[2]) || (kf < 3 && x == w[3]))));
            }
        }
        Some((paddr, flags, PageFlush::new(virt)))
    }

    /// Makes a new, empty tree: its root is a zeroed frame of `allocator`.
    pub fn create(table_kind: PageTableKind, allocator: F, arch: MMArch) -> (r: Option<Self>)
        requires
            allocator.inv(),
        ensures
            r matches Some(m) ==> {
                &&& m.wf()
                &&& m.spec_kind() == table_kind
                &&& !allocator.is_allocated(m.root())
                &&& m.spec_allocator().is_allocated(m.root())
                &&& m.spec_allocator().used_frames() == allocator.used_frames() + 1
                &&& forall|v: u64| #[trigger] spec_translate(m.spec_arch(), m.root(), v) is None
            },
    {
        let mut allocator = allocator;
        let mut arch = arch;
        let root = match allocator.allocate_one() {
            Some(p) => p,
            None => return None,
        };
        let table = PageTable::new(VirtAddr::new(0), root, PAGE_LEVELS - 1);
        table.clear(&mut arch);
        proof {
            assert(0u64 & 1u64 == 0u64) by (bit_vector);
            assert forall|v: u64| #[trigger] spec_translate(arch, root.0, v) is None by {
                lemma_index_bound(v, root_level());
                assert(entry_word(arch, root.0, spec_index(v, root_level())) == 0);
                assert(walk(arch, root.0, root_level(), v) == seq![root.0]);
            }
        }
        Some(PageMapper::new(table_kind, root, allocator, arch))
    }

    /// A mapper for the tree installed on the machine for `table_kind`.
    pub fn current(table_kind: PageTableKind, allocator: F, arch: MMArch) -> (r: Self)
        requires
            table_addr_ok(arch.spec_table(table_kind).0),
            allocator.inv(),
        ensures
            r.wf(),
            r.root() == arch.spec_table(table_kind).0,
            r.spec_kind() == table_kind,
            r.spec_allocator() == allocator,
            r.spec_arch() == arch,
    {
        let table_paddr = arch.table(table_kind);
        PageMapper::new(table_kind, table_paddr, allocator, arch)
    }

    /// Whether this mapper's tree is the one installed on the machine.
    pub fn is_current(&self) -> (r: bool)
        ensures
            r == (self.spec_arch().spec_table(self.spec_kind()).0 == self.root()),
    {
        self.arch.table(self.table_kind).0 == self.table_paddr.0
    }

    /// Installs this mapper's tree on the machine.
    pub fn make_current(&mut self)
        ensures
            final(self).spec_arch().spec_table(old(self).spec_kind()).0 == old(self).root(),
            final(self).spec_arch().memory_map() == old(self).spec_arch().memory_map(),
            final(self).root() == old(self).root(),
            final(self).spec_kind() == old(self).spec_kind(),
            final(self).spec_allocator() == old(self).spec_allocator(),
            final(self).wf() == old(self).wf(),
    {
        self.arch.set_table(self.table_kind, self.table_paddr);
    }

    pub fn allocator_ref(&self) -> (r: &F)
        ensures
            *r == self.spec_allocator(),
            self.wf() ==> r.inv(),
    {
        &self.frame_allocator
    }

    pub fn allocator_mut(&mut self) -> (r: &mut F)
        ensures
            *r == old(self).spec_allocator(),
            final(self).spec_allocator() == *final(r),
            final(self).root() == old(self).root(),
            final(self).spec_kind() == old(self).spec_kind(),
            final(self).spec_arch() == old(self).spec_arch(),
    {
        &mut self.frame_allocator
    }

    /// The machine the tree lives on.
    pub fn arch(&self) -> (r: &MMArch)
        ensures
            *r == self.spec_arch(),
    {
        &self.arch
    }

    /// Takes the mapper apart into its allocator and machine.
    pub fn into_parts(self) -> (r: (F, MMArch))
        ensures
            r.0 == self.spec_allocator(),
            r.1 == self.spec_arch(),
    {
        (self.frame_allocator, self.arch)
    }

    /// Performs the invalidation `flush` owes on this mapper's machine.
    pub fn flush(&mut self, flush: PageFlush)
        ensures
            final(self).spec_arch().memory_map() == old(self).spec_arch().memory_map(),
            final(self).spec_arch().spec_invalidations() == old(self).spec_arch().spec_invalidations().push(
                crate::arch::Invalidation::Page(flush.virt),
            ),
            final(self).root() == old(self).root(),
            final(self).spec_kind() == old(self).spec_kind(),
            final(self).spec_allocator() == old(self).spec_allocator(),
            final(self).wf() == old(self).wf(),
            forall|v: u64| #[trigger] spec_translate(final(self).spec_arch(), final(self).root(), v)
                == spec_translate(old(self).spec_arch(), old(self).root(), v),
    {
        let ghost before = self.arch;
        flush.flush(&mut self.arch);
        proof {
            assert forall|a: u64| #[trigger] self.arch.word(a) == before.word(a) by {}
            assert forall|v: u64| #[trigger] spec_translate(self.arch, self.root(), v) == spec_translate(before, self.root(), v) by {
                lemma_translate_same_memory(self.arch, before, self.root(), v);
            }
        }
    }

    /// Maps the page at `virt` to a newly allocated frame. On failure the
    /// frame goes back to the allocator.
    pub fn map(&mut self, virt: VirtAddr, flags: PageFlags) -> (r: Option<PageFlush>)
        requires
            old(self).wf(),
        ensures
            final(self).wf(),
            final(self).root() == old(self).root(),
            final(self).spec_kind() == old(self).spec_kind(),
            virt.0 % PAGE_SIZE != 0 ==> r is None,
            changes_within(
                old(self).spec_arch(),
                final(self).spec_arch(),
                walk(final(self).spec_arch(), final(self).root(), root_level(), virt.0),
                virt.0,
                old(self).spec_allocator(),
                final(self).spec_allocator(),
            ),
            r is None && virt.0 % PAGE_SIZE == 0 && (leaf_word(old(self).spec_arch(), old(self).root(), virt.0) is None
                || leaf_word(old(self).spec_arch(), old(self).root(), virt.0) == Some(0u64)) && walk(
                old(self).spec_arch(),
                old(self).root(),
                root_level(),
                virt.0,
            ).no_duplicates() ==> walk_stops(final(self).spec_arch(), final(self).root(), virt.0)
                || final(self).spec_arch() == old(self).spec_arch(),
            r is None ==> spec_translate(final(self).spec_arch(), final(self).root(), virt.0)
                == spec_translate(old(self).spec_arch(), old(self).root(), virt.0),
            r matches Some(f) ==> f.virt == virt && exists|p: u64| {
                &&& !old(self).spec_allocator().is_allocated(p)
                &&& final(self).spec_allocator().is_allocated(p)
                &&& leaf_word(final(self).spec_arch(), final(self).root(), virt.0) == Some(
                    p | (flags.data & ENTRY_FLAGS_MASK),
                )
            },
    {
        let phys = match self.frame_allocator.allocate_one() {
            Some(p) => p,
            None => return None,
        };
        let ghost s0 = *self;
        assert(s0.spec_allocator().is_allocated(phys.0));
        let r = self.map_phys(virt, phys, flags);
        let ghost s1 = *self;
        if r.is_none() {
            self.frame_allocator.free_one(phys);
        }
        proof {
            let w = walk(self.arch, self.root(), root_level(), virt.0);
            assert forall|a: u64| #[trigger] self.arch.word(a) != old(self).arch.word(a) implies on_walk(w, virt.0, a) || (
                !old(self).frame_allocator.is_allocated(page_of(a)) && self.frame_allocator.is_allocated(page_of(a))) by {
                assert(s1.arch.word(a) != s0.arch.word(a));
                if !on_walk(w, virt.0, a) {
                    assert(!s0.frame_allocator.is_allocated(page_of(a)) && s1.frame_allocator.is_allocated(page_of(a)));
                    assert(!old(self).frame_allocator.is_allocated(page_of(a))) by {
                        if old(self).frame_allocator.is_allocated(page_of(a)) {
                            assert(s0.frame_allocator.is_allocated(page_of(a)));
                        }
                    }
                    assert(page_of(a) != phys.0);
                }
            }
        }
        proof {
            if r is Some {
                assert(self.spec_allocator().is_allocated(phys.0));
                assert(!old(self).spec_allocator().is_allocated(phys.0));
            }
        }
        r
    }

    /// Maps the frame at `phys` at its kernel-virtual alias, and returns
    /// that address with the flusher.
    pub fn map_linearly(&mut self, phys: PhysAddr, flags: PageFlags) -> (r: Option<(VirtAddr, PageFlush)>)
        requires
            old(self).wf(),
        ensures
            final(self).wf(),
            final(self).root() == old(self).root(),
            final(self).spec_kind() == old(self).spec_kind(),
            phys.0 + PHYS_OFFSET > u64::MAX ==> r is None && *final(self) == *old(self),
            phys.0 + PHYS_OFFSET <= u64::MAX ==> changes_within(
                old(self).spec_arch(),
                final(self).spec_arch(),
                walk(final(self).spec_arch(), final(self).root(), root_level(), (phys.0 + PHYS_OFFSET) as u64),
                (phys.0 + PHYS_OFFSET) as u64,
                old(self).spec_allocator(),
                final(self).spec_allocator(),
            ),
            r matches Some((v, f)) ==> {
                &&& v.0 == phys.0 + PHYS_OFFSET
                &&& f.virt == v
                &&& leaf_word(final(self).spec_arch(), final(self).root(), v.0) == Some(
                    phys.0 | (flags.data & ENTRY_FLAGS_MASK),
                )
            },
            phys.0 + PHYS_OFFSET <= u64::MAX ==> fresh_frames_made(
                final(self).spec_arch(),
                walk(final(self).spec_arch(), final(self).root(), root_level(), (phys.0 + PHYS_OFFSET) as u64),
                (phys.0 + PHYS_OFFSET) as u64,
                old(self).spec_allocator(),
                final(self).spec_allocator(),
            ),
            r is None && phys.0 % PAGE_SIZE == 0 && phys.0 < PHYS_ADDRESS_LIMIT && phys.0 + PHYS_OFFSET <= u64::MAX && (
                leaf_word(old(self).spec_arch(), old(self).root(), (phys.0 + PHYS_OFFSET) as u64) is None || leaf_word(
                old(self).spec_arch(),
                old(self).root(),
                (phys.0 + PHYS_OFFSET) as u64,
            ) == Some(0u64)) && walk(old(self).spec_arch(), old(self).root(), root_level(), (phys.0 + PHYS_OFFSET) as u64).no_duplicates()
                ==> walk_stops(final(self).spec_arch(), final(self).root(), (phys.0 + PHYS_OFFSET) as u64),
            phys.0 % PAGE_SIZE == 0 && phys.0 < PHYS_ADDRESS_LIMIT && phys.0 + PHYS_OFFSET <= u64::MAX && leaf_word(
                old(self).spec_arch(),
                old(self).root(),
                (phys.0 + PHYS_OFFSET) as u64,
            ) == Some(0u64) && walk(old(self).spec_arch(), old(self).root(), root_level(), (phys.0 + PHYS_OFFSET) as u64).no_duplicates()
                ==> r is Some,
            r is None && phys.0 + PHYS_OFFSET <= u64::MAX ==> spec_translate(
                final(self).spec_arch(),
                final(self).root(),
                (phys.0 + PHYS_OFFSET) as u64,
            ) == spec_translate(old(self).spec_arch(), old(self).root(), (phys.0 + PHYS_OFFSET) as u64),
    {
        let virt = match phys_2_virt(phys) {
            Some(v) => v,
            None => return None,
        };
        match self.map_phys(virt, phys, flags) {
            Some(flush) => Some((virt, flush)),
            None => None,
        }
    }

    /// Removes the mapping of `virt` as `unmap_phys` does, and hands its
    /// frame back to the allocator.
    pub fn unmap(&mut self, virt: VirtAddr, unmap_parents: bool) -> (r: Option<PageFlush>)
        requires
            old(self).wf(),
        ensures
            final(self).wf(),
            final(self).root() == old(self).root(),
            final(self).spec_kind() == old(self).spec_kind(),
            r is Some == (virt.0 % PAGE_SIZE == 0 && spec_translate(old(self).spec_arch(), old(self).root(), virt.0) is Some
                && walk(old(self).spec_arch(), old(self).root(), root_level(), virt.0).no_duplicates()),
            r is None ==> *final(self) == *old(self),
            forall|a: u64| #[trigger] final(self).spec_arch().word(a) != old(self).spec_arch().word(a)
                ==> on_walk(walk(old(self).spec_arch(), old(self).root(), root_level(), virt.0), virt.0, a),
            r matches Some(fl) ==> {
                &&& fl.virt == virt
                &&& spec_translate(final(self).spec_arch(), final(self).root(), virt.0) is None
                &&& forall|x: u64| #[trigger] final(self).spec_allocator().is_allocated(x) == (
                    old(self).spec_allocator().is_allocated(x) && x != spec_translate(
                        old(self).spec_arch(),
                        old(self).root(),
                        virt.0,
                    )->Some_0.0 && !freed_table(
                        final(self).spec_arch(),
                        walk(old(self).spec_arch(), old(self).root(), root_level(), virt.0),
                        unmap_parents,
                        x,
                    ))
            },
    {
        match self.unmap_phys(virt, unmap_parents) {
            Some((paddr, _, flusher)) => {
                proof {
                    lemma_word_address_ok(leaf_word(old(self).arch, old(self).root(), virt.0)->Some_0);
                }
                let ghost s1 = *self;
                self.frame_allocator.free_one(paddr);
                proof {
                    let w = walk(old(self).spec_arch(), old(self).root(), root_level(), virt.0);
                    assert forall|x: u64| #[trigger] self.spec_allocator().is_allocated(x) == (
                        old(self).spec_allocator().is_allocated(x) && x != paddr.0 && !freed_table(self.arch, w, unmap_parents, x)) by {
                        assert(s1.spec_allocator().is_allocated(x) == (old(self).spec_allocator().is_allocated(x)
                            && !freed_table(s1.spec_arch(), w, unmap_parents, x)));
                        assert(s1.spec_arch() == self.arch);
                    }
                }
                Some(flusher)
            },
            None => None,
        }
    }
}

/// After `map_phys(v, p, f)` succeeds, with `f` present and `p` an address
/// an entry can hold, a lookup of `v` finds `p` and flags that agree with
/// `f` on presence, writability, executability and user access.
pub proof fn lemma_map_then_translate(arch: MMArch, root: u64, v: u64, p: u64, f: PageFlags)
    requires
        table_addr_ok(p),
        bits_set(f.data, ENTRY_FLAG_PRESENT),
        leaf_word(arch, root, v) == Some(p | (f.data & ENTRY_FLAGS_MASK)),
    ensures
        spec_translate(arch, root, v) == Some((p, f.data & ENTRY_FLAGS_MASK)),
        bits_set(f.data & ENTRY_FLAGS_MASK, ENTRY_FLAG_PRESENT),
        flags_write(f.data & ENTRY_FLAGS_MASK) == flags_write(f.data),
        flags_execute(f.data & ENTRY_FLAGS_MASK) == flags_execute(f.data),
        bits_set(f.data & ENTRY_FLAGS_MASK, ENTRY_FLAG_USER) == bits_set(f.data, ENTRY_FLAG_USER),
{
    lemma_leaf_word(p, f.data);
    lemma_flags_mask_keeps_bits(f.data);
}

proof fn lemma_flags_mask_keeps_bits(d: u64)
    ensures
        bits_set(d & ENTRY_FLAGS_MASK, ENTRY_FLAG_PRESENT) == bits_set(d, ENTRY_FLAG_PRESENT),
        flags_write(d & ENTRY_FLAGS_MASK) == flags_write(d),
        flags_execute(d & ENTRY_FLAGS_MASK) == flags_execute(d),
        bits_set(d & ENTRY_FLAGS_MASK, ENTRY_FLAG_USER) == bits_set(d, ENTRY_FLAG_USER),
        (d & ENTRY_FLAGS_MASK) & ENTRY_FLAGS_MASK == d & ENTRY_FLAGS_MASK,
{
    assert((2u64 | 0u64) == 2u64) by (bit_vector);
    assert((0u64 | 0x8000_0000_0000_0000u64) == 0x8000_0000_0000_0000u64) by (bit_vector);
    let m = 0xffff_0000_0000_0fffu64;
    assert(((d & m) & 1u64 == 1u64) == (d & 1u64 == 1u64) && ((d & m) & 2u64 == 2u64) == (d & 2u64 == 2u64)
        && ((d & m) & 0x8000_0000_0000_0000u64 == 0u64) == (d & 0x8000_0000_0000_0000u64 == 0u64) && ((d & m)
        & 4u64 == 4u64) == (d & 4u64 == 4u64) && (d & m) & m == d & m) by (bit_vector)
        requires
            m == 0xffff_0000_0000_0fffu64,
    ;
}

/// Unmapping a page and then mapping the same frame with the flags that
/// came back restores what a lookup found before.
pub proof fn lemma_unmap_then_map(before: MMArch, after: MMArch, root: u64, v: u64, p: u64, f: u64)
    requires
        spec_translate(before, root, v) == Some((p, f)),
        leaf_word(after, root, v) == Some(p | (f & ENTRY_FLAGS_MASK)),
    ensures
        spec_translate(after, root, v) == Some((p, f)),
{
    let e = leaf_word(before, root, v)->Some_0;
    lemma_word_address_ok(e);
    lemma_flags_mask_keeps_bits(e);
    lemma_leaf_word(p, f);
    assert(word_present(e));
    assert(e & 1u64 != 0 ==> (e & 0xffff_0000_0000_0fffu64) & 1u64 != 0) by (bit_vector);
}

/// Remapping with present flags keeps the frame a lookup finds and
/// replaces its flags.
pub proof fn lemma_remap_keeps_frame(before: MMArch, after: MMArch, root: u64, v: u64, flags: u64)
    requires
        spec_translate(before, root, v) is Some,
        bits_set(flags, ENTRY_FLAG_PRESENT),
        leaf_word(after, root, v) == Some(
            (leaf_word(before, root, v)->Some_0 & !ENTRY_FLAGS_MASK) | (flags & ENTRY_FLAGS_MASK),
        ),
    ensures
        spec_translate(after, root, v) == Some((spec_translate(before, root, v)->Some_0.0, flags & ENTRY_FLAGS_MASK)),
{
    let e = leaf_word(before, root, v)->Some_0;
    let m = 0xffff_0000_0000_0fffu64;
    assert(((e & !m) | (flags & m)) & 0x0000_ffff_ffff_f000u64 == e & 0x0000_ffff_ffff_f000u64
        && ((e & !m) | (flags & m)) & m == flags & m
        && (flags & 1u64 == 1u64 ==> ((e & !m) | (flags & m)) & 1u64 != 0)) by (bit_vector)
        requires
            m == 0xffff_0000_0000_0fffu64,
    ;
}

} // verus!
