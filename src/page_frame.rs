//! Page frames (whole pages identified by their number), half-open frame
//! ranges, frame counts and usage, and the frame-allocator interface with a
//! bitmap allocator that implements it.
use crate::arch::{PhysAddr, VirtAddr, PAGE_SIZE, PHYS_ADDRESS_LIMIT};
use vstd::prelude::*;

verus! {

/// A physical page, identified by its page number.
#[derive(Clone, Copy, Debug, PartialEq, Eq, Structural)]
pub struct PhysPageFrame {
    pub number: u64,
}

/// The frames `start, start + 1, ..., end - 1`, by page number.
pub open spec fn phys_frames(start: int, end: int) -> Seq<PhysPageFrame> {
    Seq::new((end - start) as nat, |i: int| PhysPageFrame::from_number((start + i) as u64))
}

impl PhysPageFrame {
    pub open spec fn from_number(n: u64) -> PhysPageFrame {
        PhysPageFrame { number: n }
    }

    pub open spec fn spec_number(self) -> u64 {
        self.number
    }

    /// The frame that holds `paddr`.
    pub fn new(paddr: PhysAddr) -> (r: PhysPageFrame)
        ensures
            r.number == paddr.0 / PAGE_SIZE,
    {
        PhysPageFrame { number: paddr.0 / PAGE_SIZE }
    }

    /// The address of the first byte of the frame.
    pub fn phys_address(&self) -> (r: PhysAddr)
        requires
            self.number * PAGE_SIZE <= u64::MAX,
        ensures
            r.0 == self.number * PAGE_SIZE,
    {
        PhysAddr::new(self.number * PAGE_SIZE)
    }

    /// The frame `n` pages further on.
    pub fn next_by(&self, n: usize) -> (r: PhysPageFrame)
        requires
            self.number + n <= u64::MAX,
        ensures
            r.number == self.number + n,
    {
        PhysPageFrame { number: self.number + n as u64 }
    }

    /// The following frame.
    pub fn next(&self) -> (r: PhysPageFrame)
        requires
            self.number + 1 <= u64::MAX,
        ensures
            r.number == self.number + 1,
    {
        self.next_by(1)
    }

    /// The frames of `[start, end)` in ascending order.
    pub fn iter_range(start: PhysPageFrame, end: PhysPageFrame) -> (r: PhysPageFrameIter)
        requires
            start.number <= end.number,
        ensures
            r.wf(),
            r.remaining() == phys_frames(start.number as int, end.number as int),
    {
        PhysPageFrameIter { current: start, end }
    }
}

/// Walks the frames of a half-open range once, in ascending order.
#[derive(Debug)]
pub struct PhysPageFrameIter {
    current: PhysPageFrame,
    /// The first frame past the range.
    end: PhysPageFrame,
}

impl PhysPageFrameIter {
    pub closed spec fn wf(&self) -> bool {
        self.current.number <= self.end.number
    }

    /// The frames still to come, in order.
    pub closed spec fn remaining(&self) -> Seq<PhysPageFrame> {
        phys_frames(self.current.number as int, self.end.number as int)
    }

    /// Hands out the next frame of the range, if any is left.
    pub fn next(&mut self) -> (r: Option<PhysPageFrame>)
        requires
            old(self).wf(),
        ensures
            final(self).wf(),
            old(self).remaining().len() == 0 ==> r is None && final(self).remaining() == old(self).remaining(),
            old(self).remaining().len() > 0 ==> r == Some(old(self).remaining()[0])
                && final(self).remaining() == old(self).remaining().drop_first(),
    {
        if self.current.number == self.end.number {
            return None;
        }
        let current = self.current;
        self.current = current.next();
        assert(final(self).remaining() =~= old(self).remaining().drop_first());
        Some(current)
    }
}

/// A virtual page, identified by its page number.
#[derive(Clone, Copy, Debug, PartialEq, Eq, Structural)]
pub struct VirtPageFrame {
    pub number: u64,
}

/// The frames `start, start + 1, ..., end - 1`, by page number.
pub open spec fn virt_frames(start: int, end: int) -> Seq<VirtPageFrame> {
    Seq::new((end - start) as nat, |i: int| VirtPageFrame::from_number((start + i) as u64))
}

impl VirtPageFrame {
    pub open spec fn from_number(n: u64) -> VirtPageFrame {
        VirtPageFrame { number: n }
    }

    pub open spec fn spec_number(self) -> u64 {
        self.number
    }

    /// The frame that holds `vaddr`.
    pub fn new(vaddr: VirtAddr) -> (r: VirtPageFrame)
        ensures
            r.number == vaddr.0 / PAGE_SIZE,
    {
        VirtPageFrame { number: vaddr.0 / PAGE_SIZE }
    }

    /// The address of the first byte of the frame.
    pub fn virt_address(&self) -> (r: VirtAddr)
        requires
            self.number * PAGE_SIZE <= u64::MAX,
        ensures
            r.0 == self.number * PAGE_SIZE,
    {
        VirtAddr::new(self.number * PAGE_SIZE)
    }

    /// The frame `n` pages further on.
    pub fn next_by(&self, n: usize) -> (r: VirtPageFrame)
        requires
            self.number + n <= u64::MAX,
        ensures
            r.number == self.number + n,
    {
        VirtPageFrame { number: self.number + n as u64 }
    }

    /// The following frame.
    pub fn next(&self) -> (r: VirtPageFrame)
        requires
            self.number + 1 <= u64::MAX,
        ensures
            r.number == self.number + 1,
    {
        self.next_by(1)
    }

    /// The frames of `[start, end)` in ascending order.
    pub fn iter_range(start: VirtPageFrame, end: VirtPageFrame) -> (r: VirtPageFrameIter)
        requires
            start.number <= end.number,
        ensures
            r.wf(),
            r.remaining() == virt_frames(start.number as int, end.number as int),
    {
        VirtPageFrameIter { current: start, end }
    }
}

/// Walks the frames of a half-open range once, in ascending order.
#[derive(Debug)]
pub struct VirtPageFrameIter {
    current: VirtPageFrame,
    /// The first frame past the range.
    end: VirtPageFrame,
}

impl VirtPageFrameIter {
    pub closed spec fn wf(&self) -> bool {
        self.current.number <= self.end.number
    }

    /// The frames still to come, in order.
    pub closed spec fn remaining(&self) -> Seq<VirtPageFrame> {
        virt_frames(self.current.number as int, self.end.number as int)
    }

    /// Hands out the next frame of the range, if any is left.
    pub fn next(&mut self) -> (r: Option<VirtPageFrame>)
        requires
            old(self).wf(),
        ensures
            final(self).wf(),
            old(self).remaining().len() == 0 ==> r is None && final(self).remaining() == old(self).remaining(),
            old(self).remaining().len() > 0 ==> r == Some(old(self).remaining()[0])
                && final(self).remaining() == old(self).remaining().drop_first(),
    {
        if self.current.number == self.end.number {
            return None;
        }
        let current = self.current;
        self.current = current.next();
        assert(final(self).remaining() =~= old(self).remaining().drop_first());
        Some(current)
    }
}

/// A range from a frame to itself is empty; a range from a frame to the one
/// `n` further on holds `n` frames, each one page above the one before.
pub proof fn lemma_iter_half_open(start: u64, n: nat)
    requires
        start + n <= u64::MAX,
    ensures
        phys_frames(start as int, start as int).len() == 0,
        phys_frames(start as int, start + n).len() == n,
        n > 0 ==> phys_frames(start as int, start + n)[0].number == start,
        forall|i: int|
            0 <= i < n - 1 ==> (#[trigger] phys_frames(start as int, start + n)[i + 1]).number * PAGE_SIZE
                == phys_frames(start as int, start + n)[i].number * PAGE_SIZE + PAGE_SIZE,
        virt_frames(start as int, start as int).len() == 0,
        virt_frames(start as int, start + n).len() == n,
        forall|i: int|
            0 <= i < n - 1 ==> (#[trigger] virt_frames(start as int, start + n)[i + 1]).number * PAGE_SIZE
                == virt_frames(start as int, start + n)[i].number * PAGE_SIZE + PAGE_SIZE,
{
    assert forall|i: int| 0 <= i < n - 1 implies (#[trigger] phys_frames(start as int, start + n)[i + 1]).number * PAGE_SIZE
        == phys_frames(start as int, start + n)[i].number * PAGE_SIZE + PAGE_SIZE by {
        let x = start + i;
        assert((x + 1) * 4096 == x * 4096 + 4096);
    }
    assert forall|i: int| 0 <= i < n - 1 implies (#[trigger] virt_frames(start as int, start + n)[i + 1]).number * PAGE_SIZE
        == virt_frames(start as int, start + n)[i].number * PAGE_SIZE + PAGE_SIZE by {
        let x = start + i;
        assert((x + 1) * 4096 == x * 4096 + 4096);
    }
}

/// A number of page frames (not bytes).
#[derive(Clone, Copy, Debug, PartialEq, Eq, Structural)]
pub struct PageFrameCount(pub usize);

impl PageFrameCount {
    pub fn new(count: usize) -> (r: PageFrameCount)
        ensures
            r.0 == count,
    {
        PageFrameCount(count)
    }

    pub fn data(&self) -> (r: usize)
        ensures
            r == self.0,
    {
        self.0
    }
}

/// How many frames an allocator has handed out, of how many.
#[derive(Debug)]
pub struct PageFrameUsage {
    used: PageFrameCount,
    total: PageFrameCount,
}

impl PageFrameUsage {
    #[verifier::type_invariant]
    spec fn inv(&self) -> bool {
        self.used.0 <= self.total.0
    }

    pub closed spec fn spec_used(&self) -> usize {
        self.used.0
    }

    pub closed spec fn spec_total(&self) -> usize {
        self.total.0
    }

    pub fn new(used: PageFrameCount, total: PageFrameCount) -> (r: PageFrameUsage)
        requires
            used.0 <= total.0,
        ensures
            r.spec_used() == used.0,
            r.spec_total() == total.0,
    {
        PageFrameUsage { used, total }
    }

    pub fn used(&self) -> (r: PageFrameCount)
        ensures
            r.0 == self.spec_used(),
    {
        self.used
    }

    /// The frames not handed out: `total - used`.
    pub fn free(&self) -> (r: PageFrameCount)
        ensures
            r.0 == self.spec_total() - self.spec_used(),
    {
        proof {
            use_type_invariant(self);
        }
        PageFrameCount(self.total.0 - self.used.0)
    }

    pub fn total(&self) -> (r: PageFrameCount)
        ensures
            r.0 == self.spec_total(),
    {
        self.total
    }
}

/// `x` is the address of one of the `count` frames that start at the
/// page-aligned address `base`.
pub open spec fn in_block(x: u64, base: u64, count: usize) -> bool {
    base % PAGE_SIZE == 0 && base <= x < base + count * PAGE_SIZE && x % PAGE_SIZE == 0
}

/// A source of physically contiguous, page-aligned frames.
pub trait FrameAllocator {
    spec fn inv(&self) -> bool;

    /// The frame at `a` is currently handed out.
    spec fn is_allocated(&self, a: u64) -> bool;

    spec fn used_frames(&self) -> nat;

    spec fn total_frames(&self) -> nat;

    /// Hands out `count` contiguous frames and returns the first one's
    /// address, or `None` when the request cannot be met.
    fn allocate(&mut self, count: PageFrameCount) -> (r: Option<PhysAddr>)
        requires
            (*old(self)).inv(),
        ensures
            (*final(self)).inv(),
            (*final(self)).total_frames() == (*old(self)).total_frames(),
            match r {
                Some(a) => {
                    &&& count.0 >= 1
                    &&& a.0 % PAGE_SIZE == 0
                    &&& a.0 + count.0 * PAGE_SIZE <= PHYS_ADDRESS_LIMIT
                    &&& forall|x: u64| in_block(x, a.0, count.0) ==> !(*old(self)).is_allocated(x)
                    &&& forall|x: u64| #[trigger] (*final(self)).is_allocated(x) == (old(self).is_allocated(x)
                        || in_block(x, a.0, count.0))
                    &&& (*final(self)).used_frames() == (*old(self)).used_frames() + count.0
                },
                None => {
                    &&& forall|x: u64| #[trigger] (*final(self)).is_allocated(x) == (*old(self)).is_allocated(x)
                    &&& (*final(self)).used_frames() == (*old(self)).used_frames()
                },
            },
    ;

    /// Takes back the `count` frames that start at `address`.
    fn free(&mut self, address: PhysAddr, count: PageFrameCount)
        requires
            (*old(self)).inv(),
        ensures
            (*final(self)).inv(),
            (*final(self)).total_frames() == (*old(self)).total_frames(),
            forall|x: u64| #[trigger] (*final(self)).is_allocated(x) == (old(self).is_allocated(x)
                && !in_block(x, address.0, count.0)),
            address.0 % PAGE_SIZE == 0 && address.0 + count.0 * PAGE_SIZE <= PHYS_ADDRESS_LIMIT
                && (forall|x: u64| in_block(x, address.0, count.0) ==> (*old(self)).is_allocated(x))
                ==> (*final(self)).used_frames() == (*old(self)).used_frames() - count.0,
    ;

    /// Hands out one frame.
    fn allocate_one(&mut self) -> (r: Option<PhysAddr>)
        requires
            (*old(self)).inv(),
        ensures
            (*final(self)).inv(),
            (*final(self)).total_frames() == (*old(self)).total_frames(),
            match r {
                Some(a) => {
                    &&& a.0 % PAGE_SIZE == 0
                    &&& a.0 + PAGE_SIZE <= PHYS_ADDRESS_LIMIT
                    &&& !(*old(self)).is_allocated(a.0)
                    &&& forall|x: u64| #[trigger] (*final(self)).is_allocated(x) == (old(self).is_allocated(x)
                        || x == a.0)
                    &&& (*final(self)).used_frames() == (*old(self)).used_frames() + 1
                },
                None => {
                    &&& forall|x: u64| #[trigger] (*final(self)).is_allocated(x) == (*old(self)).is_allocated(x)
                    &&& (*final(self)).used_frames() == (*old(self)).used_frames()
                },
            },
    {
        let r = self.allocate(PageFrameCount::new(1));
        if let Some(a) = r {
            assert(in_block(a.0, a.0, 1));
            assert forall|x: u64| #[trigger] (*final(self)).is_allocated(x) == (old(self).is_allocated(x)
                || x == a.0) by {
                assert(in_block(x, a.0, 1) <==> x == a.0);
            }
        }
        r
    }

    /// Takes back the frame at `address`.
    fn free_one(&mut self, address: PhysAddr)
        requires
            (*old(self)).inv(),
        ensures
            (*final(self)).inv(),
            (*final(self)).total_frames() == (*old(self)).total_frames(),
            forall|x: u64| #[trigger] (*final(self)).is_allocated(x) == (old(self).is_allocated(x)
                && !(x == address.0 && x % PAGE_SIZE == 0)),
            address.0 % PAGE_SIZE == 0 && address.0 + PAGE_SIZE <= PHYS_ADDRESS_LIMIT && old(
                self,
            ).is_allocated(address.0) ==> (*final(self)).used_frames() == (*old(self)).used_frames() - 1,
    {
        self.free(address, PageFrameCount::new(1));
        assert forall|x: u64| #[trigger] (*final(self)).is_allocated(x) == (old(self).is_allocated(x)
            && !(x == address.0 && x % PAGE_SIZE == 0)) by {
            assert(in_block(x, address.0, 1) <==> (x == address.0 && x % PAGE_SIZE == 0));
        }
        assert(old(self).is_allocated(address.0) ==> forall|x: u64|
            in_block(x, address.0, 1) ==> (*old(self)).is_allocated(x));
    }

    /// How many frames are handed out, of how many.
    fn usage(&self) -> (r: PageFrameUsage)
        requires
            self.inv(),
        ensures
            r.spec_used() == self.used_frames(),
            r.spec_total() == self.total_frames(),
    ;
}

/// Takes `count` contiguous frames from `allocator` and returns the first.
pub fn allocate_page_frames<A: FrameAllocator>(allocator: &mut A, count: PageFrameCount) -> (r: Option<
    PhysPageFrame,
>)
    requires
        (*old(allocator)).inv(),
    ensures
        (*final(allocator)).inv(),
        match r {
            Some(f) => {
                &&& count.0 >= 1
                &&& forall|x: u64| #[trigger] (*final(allocator)).is_allocated(x) == ((*old(allocator)).is_allocated(x)
                    || in_block(x, (f.number * PAGE_SIZE) as u64, count.0))
                &&& forall|x: u64| in_block(x, (f.number * PAGE_SIZE) as u64, count.0) ==> !(*old(allocator)).is_allocated(x)
                &&& (*final(allocator)).used_frames() == (*old(allocator)).used_frames() + count.0
            },
            None => {
                &&& forall|x: u64| #[trigger] (*final(allocator)).is_allocated(x) == (*old(allocator)).is_allocated(x)
                &&& (*final(allocator)).used_frames() == (*old(allocator)).used_frames()
            },
        },
{
    match allocator.allocate(count) {
        Some(addr) => {
            let f = PhysPageFrame::new(addr);
            assert(f.number * PAGE_SIZE == addr.0) by {
                assert(addr.0 % 4096 == 0);
                assert((addr.0 / 4096) * 4096 == addr.0) by (nonlinear_arith)
                    requires
                        addr.0 % 4096 == 0,
                ;
            }
            Some(f)
        },
        None => None,
    }
}

/// Gives the `count` frames from `frame` back to `allocator`.
pub fn deallocate_page_frames<A: FrameAllocator>(allocator: &mut A, frame: PhysPageFrame, count: PageFrameCount)
    requires
        (*old(allocator)).inv(),
        frame.number * PAGE_SIZE <= u64::MAX,
    ensures
        (*final(allocator)).inv(),
        forall|x: u64| #[trigger] (*final(allocator)).is_allocated(x) == ((*old(allocator)).is_allocated(x)
            && !in_block(x, (frame.number * PAGE_SIZE) as u64, count.0)),
{
    allocator.free(frame.phys_address(), count);
}

} // verus!
