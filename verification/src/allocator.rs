//! Address-alignment arithmetic and the heap window shared by every
//! allocation strategy.
//!
//! An allocator hands out addresses inside a fixed heap window. Both
//! strategies round candidate addresses up to the alignment a request
//! asks for, so the rounding function and its properties live here,
//! beside the constants that describe the window itself.

use vstd::prelude::*;

pub mod bump;
pub mod linked_list;

verus! {

/// Whether `n` is a power of two (1, 2, 4, 8, ...).
///
/// Alignments are always powers of two: a type's natural alignment is one,
/// and both strategies require one before rounding an address.
pub open spec fn is_power_of_two(n: int) -> bool
    decreases n,
{
    if n <= 0 {
        false
    } else if n == 1 {
        true
    } else {
        n % 2 == 0 && is_power_of_two(n / 2)
    }
}

/// Whether the address ranges `[a.0, a.0 + a.1)` and `[b.0, b.0 + b.1)`
/// share no address.
pub open spec fn regions_disjoint(a: (int, int), b: (int, int)) -> bool {
    a.0 + a.1 <= b.0 || b.0 + b.1 <= a.0
}

/// The smallest multiple of `align` that is at least `addr`.
pub open spec fn spec_align_up(addr: int, align: int) -> int
    recommends
        align > 0,
{
    if addr % align == 0 {
        addr
    } else {
        addr + (align - addr % align)
    }
}

/// The powers of two that appear in this crate as alignments or sizes.
pub proof fn lemma_small_powers_of_two()
    ensures
        is_power_of_two(1),
        is_power_of_two(2),
        is_power_of_two(4),
        is_power_of_two(8),
        is_power_of_two(16),
        is_power_of_two(4096),
{
    reveal_with_fuel(is_power_of_two, 16);
}

/// A smaller power of two divides a larger one.
pub proof fn lemma_power_of_two_divides(a: int, b: int)
    requires
        is_power_of_two(a),
        is_power_of_two(b),
        a <= b,
    ensures
        b % a == 0,
    decreases b,
{
    if a == 1 {
        assert(b % 1 == 0) by (nonlinear_arith)
            requires
                b >= 1,
        ;
    } else {
        let ha = a / 2;
        let hb = b / 2;
        vstd::arithmetic::div_mod::lemma_fundamental_div_mod(a, 2);
        vstd::arithmetic::div_mod::lemma_fundamental_div_mod(b, 2);
        lemma_power_of_two_divides(ha, hb);
        let q = hb / ha;
        vstd::arithmetic::div_mod::lemma_fundamental_div_mod(hb, ha);
        assert(b == q * a) by (nonlinear_arith)
            requires
                a == 2 * ha,
                b == 2 * hb,
                hb == ha * q + 0,
        ;
        vstd::arithmetic::div_mod::lemma_mod_multiples_basic(q, a);
    }
}

/// If `b` divides `x` and `a` divides `b`, then `a` divides `x`.
pub proof fn lemma_divides_transitive(x: int, a: int, b: int)
    requires
        a > 0,
        b > 0,
        x % b == 0,
        b % a == 0,
    ensures
        x % a == 0,
{
    let q1 = x / b;
    let q2 = b / a;
    vstd::arithmetic::div_mod::lemma_fundamental_div_mod(x, b);
    vstd::arithmetic::div_mod::lemma_fundamental_div_mod(b, a);
    assert(x == (q1 * q2) * a) by (nonlinear_arith)
        requires
            x == b * q1 + 0,
            b == a * q2 + 0,
    ;
    vstd::arithmetic::div_mod::lemma_mod_multiples_basic(q1 * q2, a);
}

/// The sum of two multiples of `m` is a multiple of `m`.
pub proof fn lemma_mod_sum_zero(x: int, y: int, m: int)
    requires
        m > 0,
        x % m == 0,
        y % m == 0,
    ensures
        (x + y) % m == 0,
{
    let qx = x / m;
    let qy = y / m;
    vstd::arithmetic::div_mod::lemma_fundamental_div_mod(x, m);
    vstd::arithmetic::div_mod::lemma_fundamental_div_mod(y, m);
    assert(x + y == (qx + qy) * m) by (nonlinear_arith)
        requires
            x == m * qx + 0,
            y == m * qy + 0,
    ;
    vstd::arithmetic::div_mod::lemma_mod_multiples_basic(qx + qy, m);
}

/// Rounding up lands on a multiple of `align`, never moves an address
/// down, moves it by less than one whole `align`, and leaves an
/// already-aligned address unchanged; applying it twice changes nothing
/// more than applying it once.
pub proof fn lemma_align_up_properties(addr: int, align: int)
    requires
        align > 0,
    ensures
        spec_align_up(addr, align) >= addr,
        spec_align_up(addr, align) < addr + align,
        spec_align_up(addr, align) % align == 0,
        addr % align == 0 ==> spec_align_up(addr, align) == addr,
        spec_align_up(spec_align_up(addr, align), align) == spec_align_up(addr, align),
{
    let q = addr / align;
    let r = addr % align;
    vstd::arithmetic::div_mod::lemma_fundamental_div_mod(addr, align);
    if r != 0 {
        assert((addr + (align - r)) % align == 0) by (nonlinear_arith)
            requires
                align > 0,
                r == addr % align,
                addr == align * q + r,
        ;
    }
}

/// Align the address `addr` upwards to alignment `align`.
///
/// `align` must be a power of two; behavior for other alignments is
/// deliberately left unspecified, so the precondition demands one.
pub fn align_up(addr: usize, align: usize) -> (r: usize)
    requires
        is_power_of_two(align as int),
        spec_align_up(addr as int, align as int) <= usize::MAX,
    ensures
        r == spec_align_up(addr as int, align as int),
{
    proof {
        lemma_align_up_properties(addr as int, align as int);
        vstd::arithmetic::div_mod::lemma_mod_decreases(addr as nat, align as nat);
    }
    let rem = addr % align;
    if rem == 0 {
        addr
    } else {
        addr - rem + align
    }
}

/// Align `addr` upwards to alignment `align`, or report that the nearest
/// multiple of `align` lies beyond the address space.
///
/// The free-list allocator rounds region starts whose distance to the
/// next alignment boundary is not known in advance, so the overflowing
/// case must fail instead of being excluded by precondition.
pub fn align_up_checked(addr: usize, align: usize) -> (r: Option<usize>)
    requires
        is_power_of_two(align as int),
    ensures
        spec_align_up(addr as int, align as int) <= usize::MAX ==> r == Some(
            spec_align_up(addr as int, align as int) as usize,
        ),
        spec_align_up(addr as int, align as int) > usize::MAX ==> r is None,
{
    proof {
        lemma_align_up_properties(addr as int, align as int);
    }
    let rem = addr % align;
    if rem == 0 {
        Some(addr)
    } else {
        addr.checked_add(align - rem)
    }
}

/// Fixed virtual base address of the kernel heap window; established at
/// build time, never configurable at run time. Virtual addresses of the
/// paging hardware are 64 bits wide wherever this kernel runs, so the
/// page plan speaks `u64`.
pub const HEAP_START: u64 = 0x4444_4444_0000;

/// Size of the kernel heap window in bytes: 100 KiB.
pub const HEAP_SIZE: usize = 100 * 1024;

/// Bytes per page of the target's paging hardware.
pub const PAGE_SIZE: u64 = 4096;

/// The difference of two multiples of `m` is a multiple of `m`.
pub proof fn lemma_mod_diff_zero(x: int, y: int, m: int)
    requires
        m > 0,
        x % m == 0,
        y % m == 0,
    ensures
        (y - x) % m == 0,
{
    let qx = x / m;
    let qy = y / m;
    vstd::arithmetic::div_mod::lemma_fundamental_div_mod(x, m);
    vstd::arithmetic::div_mod::lemma_fundamental_div_mod(y, m);
    assert(y - x == (qy - qx) * m) by (nonlinear_arith)
        requires
            x == m * qx + 0,
            y == m * qy + 0,
    ;
    vstd::arithmetic::div_mod::lemma_mod_multiples_basic(qy - qx, m);
}

/// The start addresses of the pages that cover the window
/// `[start, start + size)`, in ascending address order.
///
/// The heap initializer must map exactly these pages, in exactly this
/// order, each with present and writable permissions, before the window
/// is handed to a strategy's `init`; a failure on any page aborts
/// initialization, so that no partially mapped heap is ever used.
pub fn page_range(start: u64, size: u64) -> (pages: Vec<u64>)
    requires
        1 <= size,
        start + size <= u64::MAX,
    ensures
        pages@.len() >= 1,
        forall|k: int|
            0 <= k < pages@.len() ==> #[trigger] pages@[k] == start - (start as int % (PAGE_SIZE as int))
                + k * PAGE_SIZE,
        forall|k: int| 0 <= k < pages@.len() ==> #[trigger] pages@[k] as int % (PAGE_SIZE as int) == 0,
        pages@[0] <= start < pages@[0] + PAGE_SIZE,
        pages@.last() <= start + size - 1 < pages@.last() + PAGE_SIZE,
{
    proof {
        vstd::arithmetic::div_mod::lemma_fundamental_div_mod(start as int, PAGE_SIZE as int);
        vstd::arithmetic::div_mod::lemma_fundamental_div_mod(
            start as int + size as int - 1,
            PAGE_SIZE as int,
        );
        vstd::arithmetic::div_mod::lemma_mod_multiples_basic(
            start as int / PAGE_SIZE as int,
            PAGE_SIZE as int,
        );
        vstd::arithmetic::div_mod::lemma_mod_multiples_basic(
            (start as int + size as int - 1) / PAGE_SIZE as int,
            PAGE_SIZE as int,
        );
    }
    let first = start - start % PAGE_SIZE;
    let last_byte = start + (size - 1);
    let last = last_byte - last_byte % PAGE_SIZE;
    proof {
        lemma_mod_diff_zero(first as int, last as int, PAGE_SIZE as int);
        vstd::arithmetic::div_mod::lemma_fundamental_div_mod(
            last as int - first as int,
            PAGE_SIZE as int,
        );
    }
    let count = (last - first) / PAGE_SIZE + 1;
    let mut pages: Vec<u64> = Vec::new();
    let mut i: u64 = 0;
    while i < count
        invariant
            count == (last - first) / (PAGE_SIZE as int) + 1,
            (last - first) % (PAGE_SIZE as int) == 0,
            first <= last <= u64::MAX,
            i <= count,
            pages@.len() == i,
            forall|k: int|
                0 <= k < i ==> #[trigger] pages@[k] == first + k * PAGE_SIZE,
        decreases count - i,
    {
        proof {
            vstd::arithmetic::mul::lemma_mul_inequality(
                i as int,
                (last as int - first as int) / (PAGE_SIZE as int),
                PAGE_SIZE as int,
            );
            vstd::arithmetic::div_mod::lemma_fundamental_div_mod(
                last as int - first as int,
                PAGE_SIZE as int,
            );
        }
        pages.push(first + i * PAGE_SIZE);
        i = i + 1;
    }
    proof {
        assert(pages@.last() == first + (count - 1) * PAGE_SIZE);
        assert((count - 1) * PAGE_SIZE == last - first) by (nonlinear_arith)
            requires
                count - 1 == (last as int - first as int) / (PAGE_SIZE as int),
                (last as int - first as int) % (PAGE_SIZE as int) == 0,
                last as int - first as int == (PAGE_SIZE as int) * ((last as int - first as int)
                    / (PAGE_SIZE as int)) + (last as int - first as int) % (PAGE_SIZE as int),
        ;
        assert forall|k: int| 0 <= k < pages@.len() implies #[trigger] pages@[k] as int % (
        PAGE_SIZE as int) == 0 by {
            vstd::arithmetic::div_mod::lemma_mod_multiples_basic(k, PAGE_SIZE as int);
            lemma_mod_sum_zero(first as int, k * PAGE_SIZE, PAGE_SIZE as int);
        }
    }
    pages
}

/// The page plan for the fixed kernel heap window: the window is
/// page-aligned and an exact number of pages long, so the plan is the
/// window's own pages, one per `PAGE_SIZE` step.
pub fn heap_pages() -> (pages: Vec<u64>)
    ensures
        pages@.len() == HEAP_SIZE as int / PAGE_SIZE as int,
        forall|k: int|
            0 <= k < pages@.len() ==> #[trigger] pages@[k] == HEAP_START + k * PAGE_SIZE,
{
    let pages = page_range(HEAP_START, HEAP_SIZE as u64);
    proof {
        assert(HEAP_START as int % (PAGE_SIZE as int) == 0);
        assert(pages@.last() == HEAP_START - (HEAP_START as int % (PAGE_SIZE as int)) + (
        pages@.len() - 1) * PAGE_SIZE);
        assert(pages@.len() == 25);
    }
    pages
}

/// Whether `a` is a power of two, decided at run time.
///
/// Callers outside this crate use it to validate an alignment before
/// passing it to an allocation entry point.
pub fn power_of_two(a: usize) -> (b: bool)
    ensures
        b == is_power_of_two(a as int),
{
    if a == 0 {
        return false;
    }
    let mut x = a;
    while x % 2 == 0
        invariant
            x >= 1,
            is_power_of_two(a as int) == is_power_of_two(x as int),
        decreases x,
    {
        x = x / 2;
    }
    x == 1
}

} // verus!
