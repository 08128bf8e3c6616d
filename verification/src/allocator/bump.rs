//! Monotonic bump allocator.
//!
//! The strategy keeps a single `next` pointer that only ever moves
//! forward through the heap window. Allocation is O(1): round `next` up
//! to the requested alignment, carve the block there, advance `next`.
//! Deallocation is O(1) too, but deliberately crude: a count of
//! outstanding allocations is decremented, and only when it reaches zero
//! does `next` jump back to the start of the window. Until then no freed
//! byte is reusable — an accepted limitation that buys the constant-time
//! operations.
//!
//! A ghost set records the address ranges currently handed out, so the
//! well-formedness predicate can state — and every method must preserve —
//! that outstanding allocations never overlap.

use vstd::prelude::*;

use crate::allocator::is_power_of_two;
use crate::allocator::regions_disjoint;
use crate::allocator::spec_align_up;
use crate::allocator::align_up;

verus! {

/// Bump allocator state: the heap window, the monotonic `next` pointer,
/// and the number of outstanding allocations.
pub struct BumpAllocator {
    heap_start: usize,
    heap_end: usize,
    next: usize,
    allocations: usize,
    initialized: bool,
    /// The address ranges currently handed out, as `(start, size)` pairs.
    allocated: Ghost<Set<(int, int)>>,
}

impl BumpAllocator {
    /// Start of the heap window.
    pub closed spec fn heap_start(&self) -> int {
        self.heap_start as int
    }

    /// One past the end of the heap window.
    pub closed spec fn heap_end(&self) -> int {
        self.heap_end as int
    }

    /// The next candidate address; everything below it (within the
    /// window) is spoken for.
    pub closed spec fn next(&self) -> int {
        self.next as int
    }

    /// Number of outstanding allocations.
    pub closed spec fn allocations(&self) -> int {
        self.allocations as int
    }

    /// Whether `init` has already been called.
    pub closed spec fn initialized(&self) -> bool {
        self.initialized
    }

    /// The address ranges currently handed out.
    pub closed spec fn allocated(&self) -> Set<(int, int)> {
        self.allocated@
    }

    /// Well-formedness: the window brackets `next`, the ghost set matches
    /// the allocation count, every outstanding block lies in the spoken-for
    /// part of the window, and no two outstanding blocks overlap.
    pub open spec fn wf(&self) -> bool {
        &&& 0 <= self.heap_start() <= self.next() <= self.heap_end() <= usize::MAX
        &&& self.allocated().finite()
        &&& self.allocations() == self.allocated().len()
        &&& self.allocations() <= self.next() - self.heap_start()
        &&& (self.allocations() == 0 ==> self.next() == self.heap_start())
        &&& (self.initialized() ==> 1 <= self.heap_start())
        &&& (!self.initialized() ==> self.heap_start() == 0 && self.heap_end() == 0)
        &&& forall|r: (int, int)|
            self.allocated().contains(r) ==> 1 <= r.1 && self.heap_start() <= r.0 && r.0 + r.1
                <= self.next()
        &&& forall|r1: (int, int), r2: (int, int)|
            self.allocated().contains(r1) && self.allocated().contains(r2) && r1 != r2
                ==> regions_disjoint(r1, r2)
    }

    /// Creates a bump allocator with an empty heap window; `init` supplies
    /// the real bounds once the kernel has mapped them.
    pub fn new() -> (a: BumpAllocator)
        ensures
            a.wf(),
            !a.initialized(),
            a.allocations() == 0,
            a.allocated() == Set::<(int, int)>::empty(),
    {
        BumpAllocator {
            heap_start: 0,
            heap_end: 0,
            next: 0,
            allocations: 0,
            initialized: false,
            allocated: Ghost(Set::empty()),
        }
    }

    /// One-time initialization with the heap window `[heap_start,
    /// heap_start + heap_size)`.
    ///
    /// The window must start above address 0, since a result of 0 is the
    /// failure sentinel of `allocate`. Initializing twice is an invariant
    /// violation, so a prior `init` is excluded by precondition.
    pub fn init(&mut self, heap_start: usize, heap_size: usize)
        requires
            old(self).wf(),
            !old(self).initialized(),
            old(self).allocations() == 0,
            1 <= heap_start,
            heap_start + heap_size <= usize::MAX,
        ensures
            final(self).wf(),
            final(self).initialized(),
            final(self).heap_start() == heap_start,
            final(self).heap_end() == heap_start + heap_size,
            final(self).next() == heap_start,
            final(self).allocations() == 0,
            final(self).allocated() == Set::<(int, int)>::empty(),
    {
        proof {
            old(self).allocated().lemma_len0_is_empty();
        }
        self.heap_start = heap_start;
        self.heap_end = heap_start + heap_size;
        self.next = heap_start;
        self.initialized = true;
    }

    /// Allocates `size` bytes aligned to `align`: rounds `next` up to
    /// `align`, and if the block `[start, start + size)` still fits below
    /// `heap_end`, advances `next` past it and returns `start`. Returns
    /// the sentinel 0 — leaving the allocator untouched — exactly when the
    /// block does not fit.
    pub fn allocate(&mut self, size: usize, align: usize) -> (r: usize)
        requires
            old(self).wf(),
            is_power_of_two(align as int),
            1 <= size,
            old(self).heap_end() + align <= usize::MAX,
        ensures
            final(self).wf(),
            final(self).heap_start() == old(self).heap_start(),
            final(self).heap_end() == old(self).heap_end(),
            final(self).initialized() == old(self).initialized(),
            ({
                let start = spec_align_up(old(self).next(), align as int);
                if start + size <= old(self).heap_end() {
                    &&& r == start
                    &&& r != 0
                    &&& final(self).next() == start + size
                    &&& final(self).allocations() == old(self).allocations() + 1
                    &&& final(self).allocated() == old(self).allocated().insert(
                        (start, size as int),
                    )
                } else {
                    &&& r == 0
                    &&& *final(self) == *old(self)
                }
            }),
    {
        proof {
            crate::allocator::lemma_align_up_properties(old(self).next(), align as int);
        }
        let alloc_start = align_up(self.next, align);
        match alloc_start.checked_add(size) {
            Some(alloc_end) => {
                if alloc_end <= self.heap_end {
                    self.next = alloc_end;
                    self.allocations = self.allocations + 1;
                    let ghost block = (alloc_start as int, size as int);
                    proof {
                        assert forall|r: (int, int)|
                            old(self).allocated().contains(r) && r != block implies regions_disjoint(
                            r,
                            block,
                        ) by {
                            assert(r.0 + r.1 <= old(self).next());
                        }
                        assert(!old(self).allocated().contains(block));
                    }
                    self.allocated = Ghost(self.allocated@.insert(block));
                    alloc_start
                } else {
                    0
                }
            },
            None => 0,
        }
    }

    /// Releases the outstanding block at `ptr` of `size` bytes. The
    /// allocation count drops by one; the freed bytes stay unusable until
    /// the count reaches zero, at which point `next` snaps back to
    /// `heap_start` and the whole window is reclaimed in one step.
    ///
    /// The precondition is the allocation hook's calling convention: only
    /// a block previously returned by `allocate`, with its original size, may
    /// be freed.
    pub fn deallocate(&mut self, ptr: usize, size: usize)
        requires
            old(self).wf(),
            old(self).allocated().contains((ptr as int, size as int)),
        ensures
            final(self).wf(),
            final(self).heap_start() == old(self).heap_start(),
            final(self).heap_end() == old(self).heap_end(),
            final(self).initialized() == old(self).initialized(),
            final(self).allocations() == old(self).allocations() - 1,
            final(self).allocated() == old(self).allocated().remove((ptr as int, size as int)),
            old(self).allocations() > 1 ==> final(self).next() == old(self).next(),
            old(self).allocations() == 1 ==> final(self).next() == old(self).heap_start(),
            deallocate_step(*old(self), *final(self)),
    {
        let ghost block = (ptr as int, size as int);
        proof {
            assert(old(self).allocated().remove(block).len() == old(self).allocated().len() - 1);
        }
        self.allocated = Ghost(self.allocated@.remove(block));
        self.allocations = self.allocations - 1;
        if self.allocations == 0 {
            self.next = self.heap_start;
        }
    }

    /// Current value of the `next` pointer.
    pub fn next_addr(&self) -> (a: usize)
        ensures
            a == self.next(),
    {
        self.next
    }

    /// Number of outstanding allocations.
    pub fn allocation_count(&self) -> (n: usize)
        ensures
            n == self.allocations(),
    {
        self.allocations
    }

    /// Start of the heap window.
    pub fn heap_start_addr(&self) -> (a: usize)
        ensures
            a == self.heap_start(),
    {
        self.heap_start
    }

    /// One past the end of the heap window.
    pub fn heap_end_addr(&self) -> (a: usize)
        ensures
            a == self.heap_end(),
    {
        self.heap_end
    }
}

/// One deallocation, as `deallocate`'s contract describes it: the count
/// drops by one, and `next` either stands still (other allocations are
/// still outstanding) or resets to the start of the heap (the last one
/// was just freed).
pub open spec fn deallocate_step(pre: BumpAllocator, post: BumpAllocator) -> bool {
    &&& pre.allocations() >= 1
    &&& post.heap_start() == pre.heap_start()
    &&& post.heap_end() == pre.heap_end()
    &&& post.allocations() == pre.allocations() - 1
    &&& (pre.allocations() > 1 ==> post.next() == pre.next())
    &&& (pre.allocations() == 1 ==> post.next() == post.heap_start())
}

/// No two outstanding allocations of a well-formed bump allocator
/// overlap.
pub proof fn lemma_outstanding_allocations_disjoint(
    a: &BumpAllocator,
    r1: (int, int),
    r2: (int, int),
)
    requires
        a.wf(),
        a.allocated().contains(r1),
        a.allocated().contains(r2),
        r1 != r2,
    ensures
        regions_disjoint(r1, r2),
{
}

/// Freeing blocks one after another reclaims nothing as long as at least
/// one allocation stays outstanding: across any such run of
/// deallocations, `next` stands exactly where it stood at the start.
/// Only the step that frees the last outstanding block (the
/// `allocations() == 1` case of `deallocate_step`) resets `next`.
pub proof fn lemma_no_reuse_while_outstanding(states: Seq<BumpAllocator>)
    requires
        states.len() >= 1,
        forall|i: int| 0 <= i < states.len() - 1 ==> #[trigger] deallocate_step(states[i], states[i + 1]),
        forall|i: int| 0 <= i < states.len() ==> #[trigger] states[i].allocations() >= 1,
    ensures
        states.last().next() == states[0].next(),
    decreases states.len(),
{
    if states.len() > 1 {
        let prefix = states.drop_last();
        assert forall|i: int| 0 <= i < prefix.len() - 1 implies #[trigger] deallocate_step(
            prefix[i],
            prefix[i + 1],
        ) by {
            assert(deallocate_step(states[i], states[i + 1]));
        }
        lemma_no_reuse_while_outstanding(prefix);
        let n = states.len() as int;
        assert(deallocate_step(states[n - 2], states[n - 2 + 1]));
        assert(states.last() == states[n - 1]);
    }
}

} // verus!
