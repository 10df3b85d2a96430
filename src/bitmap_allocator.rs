//! A frame allocator over one contiguous range of physical frames, with one
//! bit per frame saying whether it is handed out.
use crate::arch::{PhysAddr, PAGE_SIZE, PHYS_ADDRESS_LIMIT};
use crate::page_frame::{in_block, FrameAllocator, PageFrameCount, PageFrameUsage};
use vstd::prelude::*;

verus! {

/// How many entries of `s` are set.
pub open spec fn count_set(s: Seq<bool>) -> nat
    decreases s.len(),
{
    if s.len() == 0 {
        0
    } else {
        count_set(s.drop_last()) + if s.last() {
            1nat
        } else {
            0nat
        }
    }
}

proof fn lemma_count_set_bound(s: Seq<bool>)
    ensures
        count_set(s) <= s.len(),
    decreases s.len(),
{
    if s.len() > 0 {
        lemma_count_set_bound(s.drop_last());
    }
}

proof fn lemma_count_set_update(s: Seq<bool>, i: int, b: bool)
    requires
        0 <= i < s.len(),
    ensures
        count_set(s.update(i, b)) + (if s[i] {
            1int
        } else {
            0int
        }) == count_set(s) + (if b {
            1int
        } else {
            0int
        }),
    decreases s.len(),
{
    let t = s.update(i, b);
    if i == s.len() - 1 {
        assert(t.drop_last() =~= s.drop_last());
    } else {
        assert(t.drop_last() =~= s.drop_last().update(i, b));
        lemma_count_set_update(s.drop_last(), i, b);
    }
}

proof fn lemma_count_set_push(s: Seq<bool>, b: bool)
    ensures
        count_set(s.push(b)) == count_set(s) + if b {
            1nat
        } else {
            0nat
        },
{
    assert(s.push(b).drop_last() =~= s);
}

/// Facts about a page-aligned address inside a page-aligned range.
proof fn lemma_frame_index(x: u64, base: u64)
    requires
        x % PAGE_SIZE == 0,
        base % PAGE_SIZE == 0,
        base <= x,
    ensures
        x == base + ((x - base) / PAGE_SIZE as int) * PAGE_SIZE,
{
    assert((x - base) % 4096 == 0) by (nonlinear_arith)
        requires
            x % 4096 == 0,
            base % 4096 == 0,
            base <= x,
    ;
}

proof fn lemma_div_page(v: int)
    requires
        v >= 0,
    ensures
        (v / PAGE_SIZE as int) * PAGE_SIZE <= v < (v / PAGE_SIZE as int + 1) * PAGE_SIZE,
{
    assert((v / 4096) * 4096 <= v < (v / 4096 + 1) * 4096) by (nonlinear_arith)
        requires
            v >= 0,
    ;
}

/// Hands out frames of `[base, base + total * PAGE_SIZE)`, first fit.
pub struct BitmapFrameAllocator {
    base: u64,
    used: Vec<bool>,
    used_count: usize,
}

impl BitmapFrameAllocator {
    /// The index of the frame at `x`.
    pub closed spec fn index_of(&self, x: u64) -> int {
        (x - self.base) / PAGE_SIZE as int
    }

    pub closed spec fn in_range(&self, x: u64) -> bool {
        self.base <= x < self.base + self.used@.len() * PAGE_SIZE && x % PAGE_SIZE == 0
    }

    /// An allocator of `total` frames from `base`, none of them handed out.
    pub fn new(base: PhysAddr, total: usize) -> (r: BitmapFrameAllocator)
        requires
            base.0 % PAGE_SIZE == 0,
            base.0 + total * PAGE_SIZE <= PHYS_ADDRESS_LIMIT,
        ensures
            r.inv(),
            r.used_frames() == 0,
            r.total_frames() == total,
            forall|x: u64| !#[trigger] r.is_allocated(x),
    {
        let mut used: Vec<bool> = Vec::new();
        let mut i: usize = 0;
        while i < total
            invariant
                i <= total,
                used@.len() == i,
                count_set(used@) == 0,
                forall|j: int| 0 <= j < i ==> !used@[j],
            decreases total - i,
        {
            proof {
                lemma_count_set_push(used@, false);
            }
            used.push(false);
            i = i + 1;
        }
        BitmapFrameAllocator { base: base.0, used, used_count: 0 }
    }

    /// Whether the `count` frames from index `start` are all free.
    fn run_is_free(&self, start: usize, count: usize) -> (r: bool)
        requires
            start + count <= self.used@.len(),
        ensures
            r == forall|j: int| start <= j < start + count ==> !self.used@[j],
    {
        let n = self.used.len();
        let mut k: usize = 0;
        while k < count
            invariant
                n == self.used@.len(),
                start + count <= self.used@.len(),
                k <= count,
                forall|j: int| start <= j < start + k ==> !self.used@[j],
            decreases count - k,
        {
            if self.used[start + k] {
                return false;
            }
            k = k + 1;
        }
        true
    }

    /// Sets the `count` bits from index `start`, all clear before.
    fn mark_run(&mut self, start: usize, count: usize)
        requires
            (*old(self)).inv(),
            start + count <= old(self).used@.len(),
            forall|j: int| start <= j < start + count ==> !old(self).used@[j],
        ensures
            (*final(self)).inv(),
            final(self).base == old(self).base,
            final(self).used@.len() == old(self).used@.len(),
            forall|j: int| 0 <= j < old(self).used@.len() ==> #[trigger] final(self).used@[j] == (old(self).used@[j] || (start <= j < start + count)),
            final(self).used_count == old(self).used_count + count,
    {
        let n = self.used.len();
        let mut k: usize = 0;
        while k < count
            invariant
                n == self.used@.len(),
                self.inv(),
                self.base == old(self).base,
                start + count <= self.used@.len(),
                forall|j: int| start <= j < start + count ==> !old(self).used@[j],
                self.used@.len() == old(self).used@.len(),
                k <= count,
                forall|j: int| 0 <= j < old(self).used@.len() ==> #[trigger] self.used@[j] == (old(self).used@[j] || (start <= j < start + k)),
                self.used_count == old(self).used_count + k,
            decreases count - k,
        {
            assert(!self.used@[(start + k) as int]);
            proof {
                lemma_count_set_update(self.used@, (start + k) as int, true);
                lemma_count_set_bound(self.used@.update((start + k) as int, true));
            }
            self.used.set(start + k, true);
            self.used_count = self.used_count + 1;
            k = k + 1;
        }
    }
}

impl FrameAllocator for BitmapFrameAllocator {
    closed spec fn inv(&self) -> bool {
        &&& self.base % PAGE_SIZE == 0
        &&& self.base + self.used@.len() * PAGE_SIZE <= PHYS_ADDRESS_LIMIT
        &&& self.used_count == count_set(self.used@)
    }

    closed spec fn is_allocated(&self, a: u64) -> bool {
        self.in_range(a) && self.used@[self.index_of(a)]
    }

    closed spec fn used_frames(&self) -> nat {
        self.used_count as nat
    }

    closed spec fn total_frames(&self) -> nat {
        self.used@.len()
    }

    fn allocate(&mut self, count: PageFrameCount) -> (r: Option<PhysAddr>) {
        let n = self.used.len();
        if count.0 == 0 || count.0 > n {
            return None;
        }
        let mut start: usize = 0;
        while start <= n - count.0
            invariant
                n == self.used@.len(),
                1 <= count.0 <= n,
                *self == *old(self),
                (*old(self)).inv(),
            decreases n - start,
        {
            if self.run_is_free(start, count.0) {
                self.mark_run(start, count.0);
                let a = self.base + (start as u64) * PAGE_SIZE;
                assert forall|x: u64| #[trigger] self.is_allocated(x) == (old(self).is_allocated(x)
                    || in_block(x, a, count.0)) by {
                    if x % PAGE_SIZE == 0 && self.base <= x {
                        lemma_frame_index(x, self.base);
                    }
                }
                assert forall|x: u64| in_block(x, a, count.0) implies !(*old(self)).is_allocated(x) by {
                    lemma_frame_index(x, self.base);
                }
                return Some(PhysAddr::new(a));
            }
            start = start + 1;
        }
        None
    }

    fn free(&mut self, address: PhysAddr, count: PageFrameCount) {
        if address.0 % PAGE_SIZE != 0 {
            return;
        }
        let n = self.used.len();
        // Only the frames below 2^64 exist: free `m` of them.
        let max_k: u64 = (u64::MAX - address.0) / PAGE_SIZE;
        proof {
            lemma_div_page((u64::MAX - address.0) as int);
        }
        let m: usize = if count.0 as u64 <= max_k {
            count.0
        } else {
            (max_k + 1) as usize
        };
        assert forall|x: u64| in_block(x, address.0, count.0) <==> in_block(x, address.0, m) by {}
        let mut k: usize = 0;
        while k < m
            invariant
                self.inv(),
                self.base == old(self).base,
                self.used@.len() == n == old(self).used@.len(),
                address.0 % PAGE_SIZE == 0,
                m <= count.0,
                m < count.0 ==> address.0 + m * PAGE_SIZE > u64::MAX,
                m <= max_k + 1,
                max_k * PAGE_SIZE <= u64::MAX - address.0,
                k <= m,
                forall|x: u64| #[trigger] self.is_allocated(x) == (old(self).is_allocated(x)
                    && !in_block(x, address.0, k)),
                address.0 + count.0 * PAGE_SIZE <= PHYS_ADDRESS_LIMIT && (forall|x: u64|
                    in_block(x, address.0, count.0) ==> (*old(self)).is_allocated(x))
                    ==> self.used_count == old(self).used_count - k,
            decreases m - k,
        {
            let x = address.0 + (k as u64) * PAGE_SIZE;
            assert(in_block(x, address.0, count.0));
            assert(!in_block(x, address.0, k));
            assert(self.is_allocated(x) == (*old(self)).is_allocated(x));
            if self.base <= x && x - self.base < (n as u64) * PAGE_SIZE {
                proof {
                    lemma_frame_index(x, self.base);
                }
                let i = ((x - self.base) / PAGE_SIZE) as usize;
                assert(i == self.index_of(x));
                if self.used[i] {
                    proof {
                        lemma_count_set_update(self.used@, i as int, false);
                    }
                    let ghost before = *self;
                    self.used.set(i, false);
                    self.used_count = self.used_count - 1;
                    assert forall|y: u64| #[trigger] self.is_allocated(y) == (before.is_allocated(y)
                        && y != x) by {
                        if y % PAGE_SIZE == 0 && self.base <= y {
                            lemma_frame_index(y, self.base);
                        }
                    }
                }
            }
            assert forall|y: u64| in_block(y, address.0, (k + 1) as usize) <==> (in_block(y, address.0, k) || y == x) by {
                if in_block(y, address.0, (k + 1) as usize) && !in_block(y, address.0, k) {
                    lemma_frame_index(y, address.0);
                    lemma_frame_index(x, address.0);
                }
            }
            k = k + 1;
        }
    }

    fn usage(&self) -> (r: PageFrameUsage) {
        proof {
            lemma_count_set_bound(self.used@);
        }
        PageFrameUsage::new(PageFrameCount::new(self.used_count), PageFrameCount::new(self.used.len()))
    }
}

} // verus!
