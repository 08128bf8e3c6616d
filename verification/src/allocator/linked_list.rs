//! First-fit intrusive free-list allocator.
//!
//! The strategy keeps a singly linked chain of free regions. In the
//! kernel the chain is threaded through the free memory itself: each
//! region's first bytes hold a node `{size, next}`, so the node's own
//! address is its region's start address. This module models that
//! arrangement as spec-level data: a node is the pair of its address and
//! its size, and the chain is the sequence of those pairs in link order,
//! head first. Every splice the kernel would perform on `next` pointers
//! appears here as the corresponding surgery on the sequence.
//!
//! Because a freed region must be able to host a node, every region on
//! the list — and every block handed out, since it will be freed later —
//! is at least `NODE_SIZE` bytes and aligned to `NODE_ALIGN`. These are
//! load-bearing invariants, not bookkeeping: a region that violated them
//! would corrupt the chain the moment a node is written into it.
//!
//! Freed regions are pushed on the head of the list (LIFO), the list
//! is not ordered by address, and `deallocate` never merges physically
//! adjacent free regions, so fragmentation is unbounded under
//! mixed-size traffic — a known, deliberate simplification of this
//! design. `deallocate_coalescing` offers merging as an alternate,
//! separately usable discipline.

use vstd::prelude::*;

use crate::allocator::align_up;
use crate::allocator::align_up_checked;
use crate::allocator::is_power_of_two;
use crate::allocator::lemma_align_up_properties;
use crate::allocator::lemma_divides_transitive;
use crate::allocator::lemma_power_of_two_divides;
use crate::allocator::lemma_small_powers_of_two;
use crate::allocator::regions_disjoint;
use crate::allocator::spec_align_up;

verus! {

/// Bytes a free region must have to host one list node: the node stores
/// a size and a next pointer, one machine word each, on the 64-bit
/// target the kernel runs on.
pub const NODE_SIZE: usize = 16;

/// Natural alignment of a list node: one machine word.
pub const NODE_ALIGN: usize = 8;

/// One node of the free list: the region `[addr, addr + size)` it
/// describes. In the kernel the node lives at `addr` itself; here the
/// address is carried explicitly.
#[derive(Clone, Copy)]
pub struct ListNode {
    addr: usize,
    size: usize,
}

impl ListNode {
    /// The region this node describes, as a spec-level pair.
    pub closed spec fn region(&self) -> (int, int) {
        (self.addr as int, self.size as int)
    }

    /// Creates a node describing the region `[addr, addr + size)`.
    pub fn new(addr: usize, size: usize) -> (n: ListNode)
        ensures
            n.region() == (addr as int, size as int),
    {
        ListNode { addr, size }
    }

    /// First address of the region.
    pub fn start_addr(&self) -> (a: usize)
        ensures
            a == self.region().0,
    {
        self.addr
    }

    /// One past the last address of the region.
    pub fn end_addr(&self) -> (a: usize)
        requires
            self.region().0 + self.region().1 <= usize::MAX,
        ensures
            a == self.region().0 + self.region().1,
    {
        self.addr + self.size
    }
}

/// What every region threaded on the free list — and every block handed
/// out, since deallocation will thread it back — must satisfy: it can
/// host a node (size and alignment), it avoids address 0 (the failure
/// sentinel), and it fits in the address space.
pub open spec fn region_wf(r: (int, int)) -> bool {
    &&& 1 <= r.0
    &&& r.0 % (NODE_ALIGN as int) == 0
    &&& NODE_SIZE <= r.1
    &&& r.0 + r.1 <= usize::MAX
}

/// Whether the region `r` can serve an allocation of `size` bytes at
/// alignment `align`: after rounding the region's start up to `align`,
/// the block fits, and the leftover tail is either empty or big enough
/// to host a node of its own. A tail in between would be an untrackable
/// fragment, so such a region is deliberately rejected and the search
/// moves on.
pub open spec fn region_fits(r: (int, int), size: int, align: int) -> bool {
    let start = spec_align_up(r.0, align);
    let end = start + size;
    let excess = r.0 + r.1 - end;
    &&& end <= r.0 + r.1
    &&& (excess == 0 || NODE_SIZE <= excess)
}

/// Whether some region of the list `fl` can serve the request.
pub open spec fn has_fit(fl: Seq<(int, int)>, size: int, align: int) -> bool {
    exists|i: int| 0 <= i < fl.len() && region_fits(#[trigger] fl[i], size, align)
}

/// Whether `fl[i]` is the *first* region of the list that can serve the
/// request — the one a first-fit scan stops at.
pub open spec fn first_fit_at(fl: Seq<(int, int)>, size: int, align: int, i: int) -> bool {
    &&& 0 <= i < fl.len()
    &&& region_fits(fl[i], size, align)
    &&& forall|j: int| 0 <= j < i ==> !region_fits(#[trigger] fl[j], size, align)
}

/// The request `(size, align)` as the allocator actually serves it:
/// alignment raised to at least `NODE_ALIGN`, size padded to a multiple
/// of that alignment and to at least `NODE_SIZE` — so that the granted
/// block, once freed, can host a list node.
pub open spec fn spec_size_align(size: int, align: int) -> (int, int) {
    let a = if align >= NODE_ALIGN as int {
        align
    } else {
        NODE_ALIGN as int
    };
    let padded = spec_align_up(size, a);
    let s = if padded >= NODE_SIZE as int {
        padded
    } else {
        NODE_SIZE as int
    };
    (s, a)
}

/// The adjusted request keeps the properties the allocator relies on:
/// the alignment is still a power of two, hosts a node's alignment, and
/// the size is at least a node's footprint and at least the caller's.
pub proof fn lemma_size_align_props(size: int, align: int)
    requires
        is_power_of_two(align),
        0 <= size,
    ensures
        ({
            let (s, a) = spec_size_align(size, align);
            &&& is_power_of_two(a)
            &&& align <= a
            &&& NODE_ALIGN <= a
            &&& a % (NODE_ALIGN as int) == 0
            &&& NODE_SIZE <= s
            &&& size <= s
            &&& s < size + a + NODE_SIZE
            &&& s % (NODE_ALIGN as int) == 0
        }),
{
    lemma_small_powers_of_two();
    let (s, a) = spec_size_align(size, align);
    lemma_power_of_two_divides(NODE_ALIGN as int, a);
    lemma_align_up_properties(size, a);
    let padded = spec_align_up(size, a);
    lemma_divides_transitive(padded, NODE_ALIGN as int, a);
}

/// What a successful `find_region` call did, witnessed by the index `i`
/// of the region it unlinked: `fl[i]` is the first fit, `node` is that
/// region, `start` is its start rounded up to the request's alignment,
/// and the list afterwards is the list before with `fl[i]` removed.
pub open spec fn find_region_post(
    pre: LinkedListAllocator,
    post: LinkedListAllocator,
    size: int,
    align: int,
    node: (int, int),
    start: int,
    i: int,
) -> bool {
    &&& first_fit_at(pre.free_list(), size, align, i)
    &&& node == pre.free_list()[i]
    &&& start == spec_align_up(pre.free_list()[i].0, align)
    &&& post.free_list() == pre.free_list().remove(i)
    &&& post.allocated() == pre.allocated()
    &&& post.initialized() == pre.initialized()
}

/// A successful `find_region` call, with the index of the unlinked
/// region abstracted away (see `find_region_post`).
pub open spec fn find_region_ok(
    pre: LinkedListAllocator,
    post: LinkedListAllocator,
    size: int,
    align: int,
    node: (int, int),
    start: int,
) -> bool {
    exists|i: int| #[trigger] find_region_post(pre, post, size, align, node, start, i)
}

/// What a successful `allocate` call did, witnessed by the index `i` of
/// the first-fit region it carved the block out of: the block starts at
/// that region's start rounded up to the adjusted alignment, the region
/// leaves the list, and a nonempty leftover tail re-enters it at the
/// head. (Bytes skipped at the region's start by the rounding are not
/// re-listed; only the tail is.)
pub open spec fn allocate_success_at(
    pre: LinkedListAllocator,
    post: LinkedListAllocator,
    asize: int,
    aalign: int,
    i: int,
    r: int,
) -> bool {
    let region = pre.free_list()[i];
    let start = spec_align_up(region.0, aalign);
    let end = start + asize;
    let excess = region.0 + region.1 - end;
    &&& first_fit_at(pre.free_list(), asize, aalign, i)
    &&& r == start
    &&& post.free_list() == (if excess > 0 {
        pre.free_list().remove(i).insert(0, (end, excess))
    } else {
        pre.free_list().remove(i)
    })
    &&& post.allocated() == pre.allocated().insert((start, asize))
    &&& post.initialized() == pre.initialized()
}

/// One `allocate` call, as its contract describes it. The request is
/// first adjusted by `spec_size_align`; if some region of the list fits
/// the adjusted request, the first fit serves it and the result is that
/// block's start address — nonzero, aligned as requested. Otherwise the
/// call fails with the sentinel 0 and changes nothing.
pub open spec fn allocate_step(
    pre: LinkedListAllocator,
    post: LinkedListAllocator,
    size: int,
    align: int,
    r: int,
) -> bool {
    let asize = spec_size_align(size, align).0;
    let aalign = spec_size_align(size, align).1;
    if has_fit(pre.free_list(), asize, aalign) {
        &&& r != 0
        &&& r % align == 0
        &&& exists|i: int| #[trigger] allocate_success_at(pre, post, asize, aalign, i, r)
    } else {
        &&& r == 0
        &&& post == pre
    }
}

/// One `deallocate` call, as its contract describes it: the freed block
/// — with the same adjusted size `allocate` granted — is spliced onto
/// the head of the free list, unconditionally and without merging.
pub open spec fn deallocate_step(
    pre: LinkedListAllocator,
    post: LinkedListAllocator,
    ptr: int,
    size: int,
    align: int,
) -> bool {
    let asize = spec_size_align(size, align).0;
    &&& post.free_list() == pre.free_list().insert(0, (ptr, asize))
    &&& post.allocated() == pre.allocated().remove((ptr, asize))
    &&& post.initialized() == pre.initialized()
}

/// First-fit free-list allocator state: the free list in link order and,
/// as ghost data, the blocks currently handed out.
pub struct LinkedListAllocator {
    free: Vec<ListNode>,
    initialized: bool,
    /// The blocks currently handed out, as `(start, size)` pairs with the
    /// adjusted size the allocator granted.
    allocated: Ghost<Set<(int, int)>>,
}

impl LinkedListAllocator {
    /// The free list in link order, head first, each node as the region
    /// it describes.
    pub closed spec fn free_list(&self) -> Seq<(int, int)> {
        self.free@.map_values(|n: ListNode| n.region())
    }

    /// The blocks currently handed out.
    pub closed spec fn allocated(&self) -> Set<(int, int)> {
        self.allocated@
    }

    /// Whether `init` has already been called.
    pub closed spec fn initialized(&self) -> bool {
        self.initialized
    }

    /// Well-formedness: every listed region and every outstanding block
    /// can host a node, and no two of them — free or allocated — overlap.
    pub open spec fn wf(&self) -> bool {
        &&& forall|i: int|
            0 <= i < self.free_list().len() ==> region_wf(#[trigger] self.free_list()[i])
        &&& forall|i: int, j: int|
            0 <= i < self.free_list().len() && 0 <= j < self.free_list().len() && i != j
                ==> regions_disjoint(#[trigger] self.free_list()[i], #[trigger] self.free_list()[j])
        &&& self.allocated().finite()
        &&& forall|r: (int, int)| self.allocated().contains(r) ==> region_wf(r)
        &&& forall|r1: (int, int), r2: (int, int)|
            self.allocated().contains(r1) && self.allocated().contains(r2) && r1 != r2
                ==> regions_disjoint(r1, r2)
        &&& forall|i: int, r: (int, int)|
            0 <= i < self.free_list().len() && #[trigger] self.allocated().contains(r)
                ==> regions_disjoint(#[trigger] self.free_list()[i], r)
    }

    /// Creates an empty allocator. As in the kernel, the heap bounds come
    /// later: writing the first node into the heap can only happen at run
    /// time, once `init` receives a mapped region.
    pub fn new() -> (a: LinkedListAllocator)
        ensures
            a.wf(),
            !a.initialized(),
            a.free_list().len() == 0,
            a.allocated() == Set::<(int, int)>::empty(),
    {
        LinkedListAllocator { free: Vec::new(), initialized: false, allocated: Ghost(Set::empty()) }
    }

    /// Adds the region `[addr, addr + size)` to the front of the list.
    ///
    /// The region must be able to host a list node — handing over one
    /// that cannot is a fatal invariant violation, excluded here by
    /// precondition — and, since the list describes
    /// memory nobody else is using, it must not overlap anything the
    /// allocator already tracks.
    pub fn add_free_region(&mut self, addr: usize, size: usize)
        requires
            old(self).wf(),
            region_wf((addr as int, size as int)),
            forall|i: int|
                0 <= i < old(self).free_list().len() ==> regions_disjoint(
                    (addr as int, size as int),
                    #[trigger] old(self).free_list()[i],
                ),
            forall|r: (int, int)|
                old(self).allocated().contains(r) ==> regions_disjoint((addr as int, size as int), r),
        ensures
            final(self).wf(),
            final(self).free_list() == old(self).free_list().insert(0, (addr as int, size as int)),
            final(self).allocated() == old(self).allocated(),
            final(self).initialized() == old(self).initialized(),
    {
        let node = ListNode::new(addr, size);
        self.free.insert(0, node);
        proof {
            let r = (addr as int, size as int);
            old(self).free@.insert_ensures(0, node);
            old(self).free_list().insert_ensures(0, r);
            assert forall|k: int| 0 <= k < self.free_list().len() implies self.free_list()[k]
                == old(self).free_list().insert(0, r)[k] by {
                if k == 0 {
                    assert(self.free@[0] == node);
                } else {
                    assert(self.free@[k] == old(self).free@[k - 1]);
                    assert(old(self).free_list().insert(0, r)[k] == old(self).free_list()[k - 1]);
                }
            }
            assert(self.free_list() =~= old(self).free_list().insert(0, r));
        }
    }

    /// One-time initialization: hands the allocator the whole heap window
    /// `[heap_start, heap_start + heap_size)` as its first free region.
    /// Initializing twice is an invariant violation, so a prior `init` is
    /// excluded by precondition.
    pub fn init(&mut self, heap_start: usize, heap_size: usize)
        requires
            old(self).wf(),
            !old(self).initialized(),
            old(self).free_list().len() == 0,
            old(self).allocated().is_empty(),
            region_wf((heap_start as int, heap_size as int)),
        ensures
            final(self).wf(),
            final(self).initialized(),
            final(self).free_list() == seq![(heap_start as int, heap_size as int)],
            final(self).allocated() == old(self).allocated(),
    {
        self.add_free_region(heap_start, heap_size);
        self.initialized = true;
        proof {
            assert(self.free_list() =~= seq![(heap_start as int, heap_size as int)]);
        }
    }

    /// The request `(size, align)` as the allocator will actually serve
    /// it (see `spec_size_align`): returned as an adjusted `(size,
    /// align)` pair.
    pub fn size_align(size: usize, align: usize) -> (r: (usize, usize))
        requires
            is_power_of_two(align as int),
            size + align + NODE_SIZE <= usize::MAX,
        ensures
            (r.0 as int, r.1 as int) == spec_size_align(size as int, align as int),
    {
        proof {
            lemma_small_powers_of_two();
            lemma_size_align_props(size as int, align as int);
        }
        let a = if align >= NODE_ALIGN {
            align
        } else {
            NODE_ALIGN
        };
        let padded = align_up(size, a);
        let s = if padded >= NODE_SIZE {
            padded
        } else {
            NODE_SIZE
        };
        (s, a)
    }

    /// Tries to serve an allocation of `size` bytes at alignment `align`
    /// from the region `region` (see `region_fits`). Returns the
    /// allocation's start address on success.
    pub fn alloc_from_region(region: &ListNode, size: usize, align: usize) -> (r: Result<
        usize,
        (),
    >)
        requires
            region_wf(region.region()),
            is_power_of_two(align as int),
        ensures
            r is Ok <==> region_fits(region.region(), size as int, align as int),
            r matches Ok(start) ==> start == spec_align_up(region.region().0, align as int),
    {
        proof {
            lemma_align_up_properties(region.region().0, align as int);
        }
        let alloc_start = match align_up_checked(region.start_addr(), align) {
            Some(s) => s,
            None => {
                return Err(());
            },
        };
        let alloc_end = match alloc_start.checked_add(size) {
            Some(e) => e,
            None => {
                return Err(());
            },
        };
        if alloc_end > region.end_addr() {
            return Err(());
        }
        let excess_size = region.end_addr() - alloc_end;
        if excess_size > 0 && excess_size < NODE_SIZE {
            return Err(());
        }
        Ok(alloc_start)
    }

    /// Scans the list from the head for the first region that can serve
    /// the request, unlinks it, and returns it together with the
    /// allocation's start address. Returns `None` — and leaves the list
    /// untouched — when no region fits. Cost is linear in the number of
    /// free regions.
    #[verifier::loop_isolation(false)]
    pub fn find_region(&mut self, size: usize, align: usize) -> (r: Option<(ListNode, usize)>)
        requires
            old(self).wf(),
            is_power_of_two(align as int),
        ensures
            final(self).wf(),
            r is None ==> *final(self) == *old(self) && !has_fit(
                old(self).free_list(),
                size as int,
                align as int,
            ),
            r matches Some((node, start)) ==> find_region_ok(
                *old(self),
                *final(self),
                size as int,
                align as int,
                node.region(),
                start as int,
            ),
    {
        let mut idx: usize = 0;
        while idx < self.free.len()
            invariant
                self.wf(),
                *self == *old(self),
                is_power_of_two(align as int),
                idx <= self.free.len(),
                forall|j: int|
                    0 <= j < idx ==> !region_fits(
                        #[trigger] self.free_list()[j],
                        size as int,
                        align as int,
                    ),
            decreases self.free.len() - idx,
        {
            proof {
                assert(self.free_list()[idx as int] == self.free@[idx as int].region());
            }
            match Self::alloc_from_region(&self.free[idx], size, align) {
                Ok(start) => {
                    let ghost pre_fl = old(self).free_list();
                    let ghost i = idx as int;
                    let node = self.free.remove(idx);
                    proof {
                        old(self).free@.remove_ensures(i);
                        pre_fl.remove_ensures(i);
                        assert forall|k: int|
                            0 <= k < self.free_list().len() implies self.free_list()[k]
                            == pre_fl.remove(i)[k] by {
                            if k < i {
                                assert(self.free@[k] == old(self).free@[k]);
                            } else {
                                assert(self.free@[k] == old(self).free@[k + 1]);
                            }
                        }
                        assert(self.free_list() =~= pre_fl.remove(i));
                        assert forall|a: int, b: int|
                            0 <= a < self.free_list().len() && 0 <= b < self.free_list().len()
                            && a != b implies regions_disjoint(
                            self.free_list()[a],
                            self.free_list()[b],
                        ) by {
                            let a0 = if a < i {
                                a
                            } else {
                                a + 1
                            };
                            let b0 = if b < i {
                                b
                            } else {
                                b + 1
                            };
                            assert(self.free_list()[a] == pre_fl[a0]);
                            assert(self.free_list()[b] == pre_fl[b0]);
                        }
                        assert forall|k: int, rg: (int, int)|
                            0 <= k < self.free_list().len() && #[trigger] self.allocated().contains(
                                rg,
                            ) implies regions_disjoint(#[trigger] self.free_list()[k], rg) by {
                            let k0 = if k < i {
                                k
                            } else {
                                k + 1
                            };
                            assert(self.free_list()[k] == pre_fl[k0]);
                            assert(regions_disjoint(pre_fl[k0], rg));
                        }
                        assert(find_region_post(
                            *old(self),
                            *self,
                            size as int,
                            align as int,
                            node.region(),
                            start as int,
                            i,
                        ));
                        assert(find_region_ok(
                            *old(self),
                            *self,
                            size as int,
                            align as int,
                            node.region(),
                            start as int,
                        ));
                    }
                    return Some((node, start));
                },
                Err(()) => {
                    idx = idx + 1;
                },
            }
        }
        None
    }

    /// Serves an allocation request. The request is first adjusted by
    /// `size_align` so the granted block can later host a list node;
    /// then the first fitting region is taken off the list, the block is
    /// carved out of it, and a nonempty leftover tail goes back on the
    /// list as a region of its own (regions are split eagerly). Returns
    /// the block's start address, or the sentinel 0 — leaving the
    /// allocator untouched — exactly when no region fits: no growth, no
    /// retry, no side effects.
    pub fn allocate(&mut self, size: usize, align: usize) -> (r: usize)
        requires
            old(self).wf(),
            is_power_of_two(align as int),
            size + align + NODE_SIZE <= usize::MAX,
        ensures
            final(self).wf(),
            allocate_step(*old(self), *final(self), size as int, align as int, r as int),
    {
        proof {
            lemma_size_align_props(size as int, align as int);
        }
        let (asize, aalign) = Self::size_align(size, align);
        let ghost pre = *self;
        match self.find_region(asize, aalign) {
            Some((region, alloc_start)) => {
                let ghost mid = *self;
                let ghost i = choose|i: int|
                    #[trigger] find_region_post(
                        pre,
                        mid,
                        asize as int,
                        aalign as int,
                        region.region(),
                        alloc_start as int,
                        i,
                    );
                let ghost reg = region.region();
                let ghost block = (alloc_start as int, asize as int);
                proof {
                    lemma_align_up_properties(reg.0, aalign as int);
                    lemma_divides_transitive(alloc_start as int, NODE_ALIGN as int, aalign as int);
                    pre.free_list().remove_ensures(i);
                }
                let alloc_end = alloc_start + asize;
                let excess = region.end_addr() - alloc_end;
                proof {
                    crate::allocator::lemma_mod_sum_zero(
                        alloc_start as int,
                        asize as int,
                        NODE_ALIGN as int,
                    );
                    if excess > 0 {
                        assert forall|k: int|
                            0 <= k < mid.free_list().len() implies regions_disjoint(
                            (alloc_end as int, excess as int),
                            #[trigger] mid.free_list()[k],
                        ) by {
                            let k0 = if k < i {
                                k
                            } else {
                                k + 1
                            };
                            assert(mid.free_list()[k] == pre.free_list()[k0]);
                            assert(regions_disjoint(pre.free_list()[i], pre.free_list()[k0]));
                        }
                        assert forall|rg: (int, int)|
                            mid.allocated().contains(rg) implies regions_disjoint(
                            (alloc_end as int, excess as int),
                            rg,
                        ) by {
                            assert(regions_disjoint(pre.free_list()[i], rg));
                        }
                    }
                }
                if excess > 0 {
                    self.add_free_region(alloc_end, excess);
                }
                self.allocated = Ghost(self.allocated@.insert(block));
                proof {
                    let post = *self;
                    // The carved block keeps every invariant an outstanding
                    // block must have, and stays inside the region it came
                    // from, so it collides with nothing else.
                    assert(region_wf(block));
                    assert(reg.0 <= block.0 && block.0 + block.1 <= reg.0 + reg.1);
                    assert forall|r1: (int, int), r2: (int, int)|
                        post.allocated().contains(r1) && post.allocated().contains(r2) && r1 != r2
                        implies regions_disjoint(r1, r2) by {
                        if r1 != block && r2 != block {
                            assert(regions_disjoint(r1, r2));
                        } else if r1 == block {
                            assert(regions_disjoint(pre.free_list()[i], r2));
                        } else {
                            assert(regions_disjoint(pre.free_list()[i], r1));
                        }
                    }
                    assert forall|k: int, rg: (int, int)|
                        0 <= k < post.free_list().len() && #[trigger] post.allocated().contains(rg)
                        implies regions_disjoint(#[trigger] post.free_list()[k], rg) by {
                        if rg == block {
                            if excess > 0 {
                                if k == 0 {
                                    assert(post.free_list()[0] == (alloc_end as int, excess as int));
                                } else {
                                    assert(post.free_list()[k] == mid.free_list()[k - 1]);
                                    let k0 = if k - 1 < i {
                                        k - 1
                                    } else {
                                        k
                                    };
                                    assert(mid.free_list()[k - 1] == pre.free_list()[k0]);
                                    assert(regions_disjoint(pre.free_list()[i], pre.free_list()[k0]));
                                }
                            } else {
                                let k0 = if k < i {
                                    k
                                } else {
                                    k + 1
                                };
                                assert(post.free_list()[k] == pre.free_list()[k0]);
                                assert(regions_disjoint(pre.free_list()[i], pre.free_list()[k0]));
                            }
                        } else {
                            if excess > 0 && k == 0 {
                                assert(regions_disjoint(post.free_list()[0], rg));
                            } else {
                                assert(regions_disjoint(post.free_list()[k], rg));
                            }
                        }
                    }
                    assert(allocate_success_at(pre, post, asize as int, aalign as int, i, alloc_start as int));
                    lemma_power_of_two_divides(align as int, aalign as int);
                    lemma_divides_transitive(alloc_start as int, align as int, aalign as int);
                    assert(allocate_step(pre, post, size as int, align as int, alloc_start as int));
                }
                alloc_start
            },
            None => {
                proof {
                    assert(allocate_step(pre, *self, size as int, align as int, 0));
                }
                0
            },
        }
    }

    /// Returns a block to the allocator: the same adjustment `allocate`
    /// performed is recomputed, and the block — which, by the adjustment,
    /// can host a list node — is spliced onto the head of the free list,
    /// unconditionally and without merging. The allocator keeps no
    /// record of a block's granted size, so the caller must hand back
    /// exactly the address `allocate` returned together with the
    /// original request; the precondition states that calling
    /// convention.
    pub fn deallocate(&mut self, ptr: usize, size: usize, align: usize)
        requires
            old(self).wf(),
            is_power_of_two(align as int),
            size + align + NODE_SIZE <= usize::MAX,
            old(self).allocated().contains(
                (ptr as int, spec_size_align(size as int, align as int).0),
            ),
        ensures
            final(self).wf(),
            deallocate_step(*old(self), *final(self), ptr as int, size as int, align as int),
    {
        proof {
            lemma_size_align_props(size as int, align as int);
        }
        let (asize, _aalign) = Self::size_align(size, align);
        let ghost block = (ptr as int, asize as int);
        proof {
            assert(old(self).allocated().contains(block));
            assert(region_wf(block));
            assert forall|k: int|
                0 <= k < old(self).free_list().len() implies regions_disjoint(
                block,
                #[trigger] old(self).free_list()[k],
            ) by {
                assert(regions_disjoint(old(self).free_list()[k], block));
            }
        }
        self.allocated = Ghost(self.allocated@.remove(block));
        proof {
            assert(self.free_list() == old(self).free_list());
            assert forall|rg: (int, int)| self.allocated().contains(rg) implies region_wf(rg) by {
                assert(old(self).allocated().contains(rg));
            }
            assert forall|r1: (int, int), r2: (int, int)|
                self.allocated().contains(r1) && self.allocated().contains(r2) && r1 != r2
                implies regions_disjoint(r1, r2) by {
                assert(old(self).allocated().contains(r1));
                assert(old(self).allocated().contains(r2));
            }
            assert forall|k: int, rg: (int, int)|
                0 <= k < self.free_list().len() && #[trigger] self.allocated().contains(rg)
                implies regions_disjoint(#[trigger] self.free_list()[k], rg) by {
                assert(old(self).allocated().contains(rg));
                assert(regions_disjoint(old(self).free_list()[k], rg));
            }
        }
        self.add_free_region(ptr, asize);
    }

    /// Returns a block to the allocator and merges it with physically
    /// adjacent free regions: an alternate deallocation discipline that
    /// keeps fragmentation bounded at the price of a linear neighbor
    /// scan. The region that reaches the list covers the freed block
    /// together with any listed region ending at its start and any
    /// starting at its end, as one piece.
    ///
    /// The contract states the merge exactly at the level where order
    /// does not matter: the set of covered addresses afterwards is the
    /// set before plus the freed block's addresses, and the list grows
    /// by at most one region.
    pub fn deallocate_coalescing(&mut self, ptr: usize, size: usize, align: usize)
        requires
            old(self).wf(),
            is_power_of_two(align as int),
            size + align + NODE_SIZE <= usize::MAX,
            old(self).allocated().contains(
                (ptr as int, spec_size_align(size as int, align as int).0),
            ),
        ensures
            final(self).wf(),
            final(self).allocated() == old(self).allocated().remove(
                (ptr as int, spec_size_align(size as int, align as int).0),
            ),
            final(self).initialized() == old(self).initialized(),
            covered(final(self).free_list()) == covered(old(self).free_list()).union(
                Set::new(
                    |a: int| ptr <= a < ptr + spec_size_align(size as int, align as int).0,
                ),
            ),
            final(self).free_list().len() <= old(self).free_list().len() + 1,
    {
        proof {
            lemma_size_align_props(size as int, align as int);
        }
        let (asize, _aalign) = Self::size_align(size, align);
        let ghost block = (ptr as int, asize as int);
        let ghost block_range = Set::new(|a: int| ptr <= a < ptr + asize);
        proof {
            assert(old(self).allocated().contains(block));
            assert(region_wf(block));
        }
        self.allocated = Ghost(self.allocated@.remove(block));
        let ghost s1 = *self;
        proof {
            assert(s1.free_list() == old(self).free_list());
            assert forall|rg: (int, int)| s1.allocated().contains(rg) implies region_wf(rg) by {
                assert(old(self).allocated().contains(rg));
            }
            assert forall|r1: (int, int), r2: (int, int)|
                s1.allocated().contains(r1) && s1.allocated().contains(r2) && r1 != r2
                implies regions_disjoint(r1, r2) by {
                assert(old(self).allocated().contains(r1));
                assert(old(self).allocated().contains(r2));
            }
            assert forall|k: int, rg: (int, int)|
                0 <= k < s1.free_list().len() && #[trigger] s1.allocated().contains(rg)
                implies regions_disjoint(#[trigger] s1.free_list()[k], rg) by {
                assert(old(self).allocated().contains(rg));
                assert(regions_disjoint(old(self).free_list()[k], rg));
            }
            assert forall|k: int|
                0 <= k < s1.free_list().len() implies regions_disjoint(
                #[trigger] s1.free_list()[k],
                block,
            ) by {
                assert(regions_disjoint(old(self).free_list()[k], block));
            }
        }
        let left = self.take_region_ending_at(ptr);
        let ghost s2 = *self;
        let right = self.take_region_starting_at(ptr + asize);
        let ghost s3 = *self;
        let start = match &left {
            Some(node) => node.start_addr(),
            None => ptr,
        };
        let end = match &right {
            Some(node) => node.end_addr(),
            None => ptr + asize,
        };
        let total = end - start;
        proof {
            let merged = (start as int, total as int);
            // Index the list of `s3` back into `s2` and `s1`: each
            // surviving region is one the freed block and both
            // neighbors were disjoint from.
            assert forall|k: int|
                0 <= k < s3.free_list().len() implies regions_disjoint(
                merged,
                #[trigger] s3.free_list()[k],
            ) && region_wf(s3.free_list()[k]) by {
                let k1: int = if right is Some {
                    let ri = choose|ri: int|
                        #[trigger] take_at(s2, s3, (right->Some_0).region(), ri);
                    s2.free_list().remove_ensures(ri);
                    if k < ri {
                        k
                    } else {
                        k + 1
                    }
                } else {
                    k
                };
                assert(s3.free_list()[k] == s2.free_list()[k1]);
                assert(right is Some ==> regions_disjoint(
                    (right->Some_0).region(),
                    s2.free_list()[k1],
                ));
                let k2: int = if left is Some {
                    let li = choose|li: int|
                        #[trigger] take_at(s1, s2, (left->Some_0).region(), li);
                    s1.free_list().remove_ensures(li);
                    if k1 < li {
                        k1
                    } else {
                        k1 + 1
                    }
                } else {
                    k1
                };
                assert(s2.free_list()[k1] == s1.free_list()[k2]);
                assert(left is Some ==> regions_disjoint(
                    (left->Some_0).region(),
                    s1.free_list()[k2],
                ));
                assert(regions_disjoint(s1.free_list()[k2], block));
                assert(region_wf(s1.free_list()[k2]));
            }
            assert(left is Some ==> (left->Some_0).region().0 == start && (
            left->Some_0).region().0 + (left->Some_0).region().1 == ptr);
            assert(left is None ==> start == ptr);
            assert(right is Some ==> (right->Some_0).region().0 == ptr + asize && (
            right->Some_0).region().0 + (right->Some_0).region().1 == end);
            assert(right is None ==> end == ptr + asize);
            assert forall|rg: (int, int)| #[trigger]
                s3.allocated().contains(rg) implies regions_disjoint(merged, rg) by {
                assert(s1.allocated().contains(rg));
                assert(region_wf(rg));
                assert(old(self).allocated().contains(rg));
                assert(rg != block);
                assert(regions_disjoint(block, rg));
                if left is Some {
                    let li = choose|li: int|
                        #[trigger] take_at(s1, s2, (left->Some_0).region(), li);
                    assert((left->Some_0).region() == s1.free_list()[li]);
                    assert(regions_disjoint(s1.free_list()[li], rg));
                }
                if right is Some {
                    let ri = choose|ri: int|
                        #[trigger] take_at(s2, s3, (right->Some_0).region(), ri);
                    assert((right->Some_0).region() == s2.free_list()[ri]);
                    let ri1: int = if left is Some {
                        let li = choose|li: int|
                            #[trigger] take_at(s1, s2, (left->Some_0).region(), li);
                        s1.free_list().remove_ensures(li);
                        if ri < li {
                            ri
                        } else {
                            ri + 1
                        }
                    } else {
                        ri
                    };
                    assert(s2.free_list()[ri] == s1.free_list()[ri1]);
                    assert(regions_disjoint(s1.free_list()[ri1], rg));
                }
            }
        }
        self.add_free_region(start, total);
        proof {
            let merged_range = Set::new(|a: int| start <= a < start + total);
            lemma_covered_insert(s3.free_list(), (start as int, total as int));
            let left_range: Set<int> = if left is Some {
                let li = choose|li: int| #[trigger] take_at(s1, s2, (left->Some_0).region(), li);
                lemma_covered_remove(s1.free_list(), li);
                Set::new(
                    |a: int| s1.free_list()[li].0 <= a < s1.free_list()[li].0
                        + s1.free_list()[li].1,
                )
            } else {
                Set::empty()
            };
            assert(covered(s1.free_list()) =~= covered(s2.free_list()).union(left_range));
            let right_range: Set<int> = if right is Some {
                let ri = choose|ri: int| #[trigger] take_at(s2, s3, (right->Some_0).region(), ri);
                lemma_covered_remove(s2.free_list(), ri);
                Set::new(
                    |a: int| s2.free_list()[ri].0 <= a < s2.free_list()[ri].0
                        + s2.free_list()[ri].1,
                )
            } else {
                Set::empty()
            };
            assert(covered(s2.free_list()) =~= covered(s3.free_list()).union(right_range));
            assert(merged_range =~= left_range.union(block_range).union(right_range));
            assert(covered(self.free_list()) =~= covered(old(self).free_list()).union(
                block_range,
            ));
        }
    }

    /// Unlinks and returns the listed region that ends exactly at
    /// `addr`, if there is one. Free regions are disjoint, so at most
    /// one can end there.
    #[verifier::loop_isolation(false)]
    fn take_region_ending_at(&mut self, addr: usize) -> (r: Option<ListNode>)
        requires
            old(self).wf(),
        ensures
            final(self).wf(),
            final(self).allocated() == old(self).allocated(),
            final(self).initialized() == old(self).initialized(),
            r is None ==> *final(self) == *old(self) && forall|k: int|
                0 <= k < old(self).free_list().len() ==> (#[trigger] old(self).free_list()[k]).0
                    + old(self).free_list()[k].1 != addr,
            r matches Some(node) ==> region_wf(node.region()) && node.region().0
                + node.region().1 == addr && taken_from(*old(self), *final(self), node.region()),
    {
        let mut idx: usize = 0;
        while idx < self.free.len()
            invariant
                self.wf(),
                *self == *old(self),
                idx <= self.free.len(),
                forall|k: int|
                    0 <= k < idx ==> (#[trigger] self.free_list()[k]).0 + self.free_list()[k].1
                        != addr,
            decreases self.free.len() - idx,
        {
            proof {
                assert(self.free_list()[idx as int] == self.free@[idx as int].region());
                assert(region_wf(self.free_list()[idx as int]));
            }
            if self.free[idx].end_addr() == addr {
                let ghost i = idx as int;
                let node = self.free.remove(idx);
                proof {
                    self.lemma_take_post(*old(self), i, node);
                }
                return Some(node);
            }
            idx = idx + 1;
        }
        None
    }

    /// Unlinks and returns the listed region that starts exactly at
    /// `addr`, if there is one. Free regions are disjoint, so at most
    /// one can start there.
    #[verifier::loop_isolation(false)]
    fn take_region_starting_at(&mut self, addr: usize) -> (r: Option<ListNode>)
        requires
            old(self).wf(),
        ensures
            final(self).wf(),
            final(self).allocated() == old(self).allocated(),
            final(self).initialized() == old(self).initialized(),
            r is None ==> *final(self) == *old(self) && forall|k: int|
                0 <= k < old(self).free_list().len() ==> (#[trigger] old(self).free_list()[k]).0
                    != addr,
            r matches Some(node) ==> region_wf(node.region()) && node.region().0 == addr
                && taken_from(*old(self), *final(self), node.region()),
    {
        let mut idx: usize = 0;
        while idx < self.free.len()
            invariant
                self.wf(),
                *self == *old(self),
                idx <= self.free.len(),
                forall|k: int| 0 <= k < idx ==> (#[trigger] self.free_list()[k]).0 != addr,
            decreases self.free.len() - idx,
        {
            proof {
                assert(self.free_list()[idx as int] == self.free@[idx as int].region());
                assert(region_wf(self.free_list()[idx as int]));
            }
            if self.free[idx].start_addr() == addr {
                let ghost i = idx as int;
                let node = self.free.remove(idx);
                proof {
                    self.lemma_take_post(*old(self), i, node);
                }
                return Some(node);
            }
            idx = idx + 1;
        }
        None
    }

    /// After removing index `i` of `pre`'s list — with nothing else
    /// changed — the allocator is still well-formed and `taken_from`
    /// holds of the unlinked node.
    proof fn lemma_take_post(&self, pre: LinkedListAllocator, i: int, node: ListNode)
        requires
            pre.wf(),
            0 <= i < pre.free_list().len(),
            self.free@ == pre.free@.remove(i),
            node == pre.free@[i],
            self.allocated() == pre.allocated(),
            self.initialized() == pre.initialized(),
        ensures
            self.wf(),
            self.free_list() == pre.free_list().remove(i),
            node.region() == pre.free_list()[i],
            take_at(pre, *self, node.region(), i),
            taken_from(pre, *self, node.region()),
    {
        pre.free@.remove_ensures(i);
        pre.free_list().remove_ensures(i);
        assert forall|k: int|
            0 <= k < self.free_list().len() implies self.free_list()[k] == pre.free_list().remove(
            i,
        )[k] by {
            if k < i {
                assert(self.free@[k] == pre.free@[k]);
            } else {
                assert(self.free@[k] == pre.free@[k + 1]);
            }
        }
        assert(self.free_list() =~= pre.free_list().remove(i));
        lemma_wf_after_remove(pre, *self, i);
    }

    /// Number of regions currently on the free list.
    pub fn free_region_count(&self) -> (n: usize)
        ensures
            n == self.free_list().len(),
    {
        self.free.len()
    }
}

/// Whether `post`'s list is `pre`'s with the region `node` — listed at
/// index `i` — unlinked, everything else equal.
pub open spec fn take_at(
    pre: LinkedListAllocator,
    post: LinkedListAllocator,
    node: (int, int),
    i: int,
) -> bool {
    &&& 0 <= i < pre.free_list().len()
    &&& node == pre.free_list()[i]
    &&& post.free_list() == pre.free_list().remove(i)
    &&& post.allocated() == pre.allocated()
    &&& post.initialized() == pre.initialized()
}

/// `take_at`, with the index abstracted away.
pub open spec fn taken_from(
    pre: LinkedListAllocator,
    post: LinkedListAllocator,
    node: (int, int),
) -> bool {
    exists|i: int| #[trigger] take_at(pre, post, node, i)
}

/// Removing one region from a well-formed allocator's list — nothing
/// else changed — leaves it well-formed.
pub proof fn lemma_wf_after_remove(pre: LinkedListAllocator, post: LinkedListAllocator, i: int)
    requires
        pre.wf(),
        0 <= i < pre.free_list().len(),
        post.free_list() == pre.free_list().remove(i),
        post.allocated() == pre.allocated(),
    ensures
        post.wf(),
{
    let fl = pre.free_list();
    fl.remove_ensures(i);
    assert forall|k: int| 0 <= k < post.free_list().len() implies region_wf(
        #[trigger] post.free_list()[k],
    ) by {
        let k0 = if k < i {
            k
        } else {
            k + 1
        };
        assert(post.free_list()[k] == fl[k0]);
    }
    assert forall|a: int, b: int|
        0 <= a < post.free_list().len() && 0 <= b < post.free_list().len() && a != b
        implies regions_disjoint(#[trigger] post.free_list()[a], #[trigger] post.free_list()[b]) by {
        let a0 = if a < i {
            a
        } else {
            a + 1
        };
        let b0 = if b < i {
            b
        } else {
            b + 1
        };
        assert(post.free_list()[a] == fl[a0]);
        assert(post.free_list()[b] == fl[b0]);
    }
    assert forall|k: int, rg: (int, int)|
        0 <= k < post.free_list().len() && #[trigger] post.allocated().contains(rg)
        implies regions_disjoint(#[trigger] post.free_list()[k], rg) by {
        let k0 = if k < i {
            k
        } else {
            k + 1
        };
        assert(post.free_list()[k] == fl[k0]);
        assert(regions_disjoint(fl[k0], rg));
    }
}

/// The set of addresses the listed regions cover. Two lists that cover
/// the same set describe the same free memory, whatever their order
/// and however the regions are cut.
pub open spec fn covered(fl: Seq<(int, int)>) -> Set<int> {
    Set::new(
        |a: int|
            exists|i: int| 0 <= i < fl.len() && (#[trigger] fl[i]).0 <= a < fl[i].0 + fl[i].1,
    )
}

/// Removing a region from the list removes exactly its addresses from
/// the covered set — up to what the other regions still cover.
pub proof fn lemma_covered_remove(fl: Seq<(int, int)>, i: int)
    requires
        0 <= i < fl.len(),
    ensures
        covered(fl) == covered(fl.remove(i)).union(
            Set::new(|a: int| fl[i].0 <= a < fl[i].0 + fl[i].1),
        ),
    decreases 0int,
{
    let rest = fl.remove(i);
    let own = Set::new(|a: int| fl[i].0 <= a < fl[i].0 + fl[i].1);
    fl.remove_ensures(i);
    assert forall|a: int| covered(fl).contains(a) implies covered(rest).union(own).contains(
        a,
    ) by {
        let k = choose|k: int| 0 <= k < fl.len() && (#[trigger] fl[k]).0 <= a < fl[k].0
            + fl[k].1;
        if k != i {
            let k2 = if k < i {
                k
            } else {
                k - 1
            };
            assert(rest[k2] == fl[k]);
            assert(covered(rest).contains(a));
        }
    }
    assert forall|a: int| covered(rest).union(own).contains(a) implies covered(fl).contains(
        a,
    ) by {
        if covered(rest).contains(a) {
            let k2 = choose|k2: int| 0 <= k2 < rest.len() && (#[trigger] rest[k2]).0 <= a
                < rest[k2].0 + rest[k2].1;
            let k = if k2 < i {
                k2
            } else {
                k2 + 1
            };
            assert(fl[k] == rest[k2]);
            assert(covered(fl).contains(a));
        } else {
            assert(fl[i].0 <= a < fl[i].0 + fl[i].1);
        }
    }
    assert(covered(fl) =~= covered(rest).union(own));
}

/// Inserting a region at the head adds exactly its addresses to the
/// covered set.
pub proof fn lemma_covered_insert(fl: Seq<(int, int)>, r: (int, int))
    ensures
        covered(fl.insert(0, r)) == covered(fl).union(Set::new(|a: int| r.0 <= a < r.0 + r.1)),
    decreases 0int,
{
    let grown = fl.insert(0, r);
    let own = Set::new(|a: int| r.0 <= a < r.0 + r.1);
    fl.insert_ensures(0, r);
    assert forall|a: int| covered(grown).contains(a) implies covered(fl).union(own).contains(
        a,
    ) by {
        let k = choose|k: int| 0 <= k < grown.len() && (#[trigger] grown[k]).0 <= a < grown[k].0
            + grown[k].1;
        if k != 0 {
            assert(grown[k] == fl[k - 1]);
            assert(covered(fl).contains(a));
        }
    }
    assert forall|a: int| covered(fl).union(own).contains(a) implies covered(grown).contains(
        a,
    ) by {
        if covered(fl).contains(a) {
            let k = choose|k: int| 0 <= k < fl.len() && (#[trigger] fl[k]).0 <= a < fl[k].0
                + fl[k].1;
            assert(grown[k + 1] == fl[k]);
            assert(covered(grown).contains(a));
        } else {
            assert(grown[0] == r);
            assert(covered(grown).contains(a));
        }
    }
    assert(covered(grown) =~= covered(fl).union(own));
}

/// Total free capacity: the sum of the sizes of the listed regions.
pub open spec fn free_capacity(fl: Seq<(int, int)>) -> int
    decreases fl.len(),
{
    if fl.len() == 0 {
        0
    } else {
        fl[0].1 + free_capacity(fl.drop_first())
    }
}

/// Every region's size is bounded by the total free capacity.
pub proof fn lemma_region_le_capacity(fl: Seq<(int, int)>, i: int)
    requires
        0 <= i < fl.len(),
        forall|k: int| 0 <= k < fl.len() ==> 0 <= (#[trigger] fl[k]).1,
    ensures
        fl[i].1 <= free_capacity(fl),
    decreases fl.len(),
{
    if i > 0 {
        lemma_region_le_capacity(fl.drop_first(), i - 1);
    } else {
        lemma_capacity_nonneg(fl.drop_first());
    }
}

/// The total free capacity of a list of sized regions is nonnegative.
pub proof fn lemma_capacity_nonneg(fl: Seq<(int, int)>)
    requires
        forall|k: int| 0 <= k < fl.len() ==> 0 <= (#[trigger] fl[k]).1,
    ensures
        0 <= free_capacity(fl),
    decreases fl.len(),
{
    if fl.len() > 0 {
        lemma_capacity_nonneg(fl.drop_first());
    }
}

/// The two deallocation disciplines free the same memory: a plain
/// `deallocate` — like a coalescing one — adds exactly the freed
/// block's addresses to the covered set. The disciplines differ only
/// in how that set is cut into regions.
pub proof fn lemma_deallocate_covers_block(
    pre: LinkedListAllocator,
    post: LinkedListAllocator,
    ptr: int,
    size: int,
    align: int,
)
    requires
        deallocate_step(pre, post, ptr, size, align),
    ensures
        covered(post.free_list()) == covered(pre.free_list()).union(
            Set::new(|a: int| ptr <= a < ptr + spec_size_align(size, align).0),
        ),
{
    lemma_covered_insert(pre.free_list(), (ptr, spec_size_align(size, align).0));
}

/// No two outstanding blocks of a well-formed allocator overlap: every
/// address belongs to at most one concurrently granted allocation.
pub proof fn lemma_outstanding_allocations_disjoint(
    a: &LinkedListAllocator,
    r1: (int, int),
    r2: (int, int),
)
    requires
        a.wf(),
        a.allocated().contains(r1),
        a.allocated().contains(r2),
        r1 != r2,
    ensures
        regions_disjoint(r1, r2),
{
}

/// Requesting more memory than the total free capacity always fails:
/// no region of the list can fit such a request, so `allocate` returns
/// the sentinel 0 and — by `allocate_step` — leaves the allocator
/// exactly as it was, ready for smaller requests.
pub proof fn lemma_oversized_request_fails(a: &LinkedListAllocator, size: int, align: int)
    requires
        a.wf(),
        spec_size_align(size, align).0 > free_capacity(a.free_list()),
    ensures
        !has_fit(a.free_list(), spec_size_align(size, align).0, spec_size_align(size, align).1),
        forall|post: LinkedListAllocator, r: int|
            #[trigger] allocate_step(*a, post, size, align, r) ==> r == 0 && post == *a,
{
    let asize = spec_size_align(size, align).0;
    let aalign = spec_size_align(size, align).1;
    let fl = a.free_list();
    assert forall|i: int| 0 <= i < fl.len() implies !region_fits(#[trigger] fl[i], asize, aalign)
        by {
        lemma_region_le_capacity(fl, i);
        crate::allocator::lemma_align_up_properties(fl[i].0, aalign);
    }
}

/// Free a block, then issue an identical request: it is guaranteed to
/// succeed, and it returns the very same address. The freed block went
/// to the head of the list, the head is the first region a first-fit
/// scan tries, and the block fits its own old request exactly.
pub proof fn lemma_reuse_after_free(
    pre: LinkedListAllocator,
    post: LinkedListAllocator,
    ptr: int,
    size: int,
    align: int,
)
    requires
        deallocate_step(pre, post, ptr, size, align),
        spec_align_up(ptr, spec_size_align(size, align).1) == ptr,
    ensures
        has_fit(post.free_list(), spec_size_align(size, align).0, spec_size_align(size, align).1),
        forall|next: LinkedListAllocator, r: int|
            #[trigger] allocate_step(post, next, size, align, r) ==> r == ptr && r != 0,
{
    let asize = spec_size_align(size, align).0;
    let aalign = spec_size_align(size, align).1;
    let fl = post.free_list();
    pre.free_list().insert_ensures(0, (ptr, asize));
    assert(fl[0] == (ptr, asize));
    assert(region_fits(fl[0], asize, aalign));
    assert(has_fit(fl, asize, aalign));
    assert forall|next: LinkedListAllocator, r: int|
        #[trigger] allocate_step(post, next, size, align, r) implies r == ptr && r != 0 by {
        let i = choose|i: int| #[trigger] allocate_success_at(post, next, asize, aalign, i, r);
        assert(first_fit_at(fl, asize, aalign, i));
        assert(i == 0) by {
            if i > 0 {
                assert(!region_fits(fl[0], asize, aalign));
            }
        }
    }
}

/// Allocate a block, free it, allocate with the identical request
/// again: the second allocation is guaranteed to succeed and returns
/// the same address — freed memory is reused.
pub proof fn lemma_allocate_free_allocate(
    s0: LinkedListAllocator,
    s1: LinkedListAllocator,
    s2: LinkedListAllocator,
    s3: LinkedListAllocator,
    size: int,
    align: int,
    r1: int,
    r2: int,
)
    requires
        is_power_of_two(align),
        0 <= size,
        allocate_step(s0, s1, size, align, r1),
        r1 != 0,
        deallocate_step(s1, s2, r1, size, align),
        allocate_step(s2, s3, size, align, r2),
    ensures
        r2 == r1,
        r2 != 0,
{
    let asize = spec_size_align(size, align).0;
    let aalign = spec_size_align(size, align).1;
    lemma_size_align_props(size, align);
    let i = choose|i: int| #[trigger] allocate_success_at(s0, s1, asize, aalign, i, r1);
    crate::allocator::lemma_align_up_properties(s0.free_list()[i].0, aalign);
    crate::allocator::lemma_align_up_properties(r1, aalign);
    lemma_reuse_after_free(s1, s2, r1, size, align);
}

/// One full cycle at the head of the list — an exact-fit allocation
/// followed by its deallocation — restores the free list to exactly
/// what it was: no region leaks, none is gained. This is the steady
/// state of repeatedly allocating and freeing one fixed-size block.
pub proof fn lemma_exact_cycle_restores_free_list(
    s0: LinkedListAllocator,
    s1: LinkedListAllocator,
    s2: LinkedListAllocator,
    size: int,
    align: int,
    r: int,
)
    requires
        s0.wf(),
        allocate_step(s0, s1, size, align, r),
        r != 0,
        deallocate_step(s1, s2, r, size, align),
        s0.free_list().len() > 0,
        s0.free_list()[0] == (r, spec_size_align(size, align).0),
        spec_align_up(r, spec_size_align(size, align).1) == r,
    ensures
        s2.free_list() == s0.free_list(),
{
    let asize = spec_size_align(size, align).0;
    let aalign = spec_size_align(size, align).1;
    let fl = s0.free_list();
    assert(region_fits(fl[0], asize, aalign));
    assert(has_fit(fl, asize, aalign));
    let i = choose|i: int| #[trigger] allocate_success_at(s0, s1, asize, aalign, i, r);
    assert(i == 0) by {
        if i > 0 {
            assert(!region_fits(fl[0], asize, aalign));
        }
    }
    assert(s1.free_list() == fl.remove(0));
    fl.remove_ensures(0);
    s1.free_list().insert_ensures(0, (r, asize));
    assert(s2.free_list() =~= fl);
}

} // verus!
