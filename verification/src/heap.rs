//! The user programs' bump allocator: each allocation starts at the next
//! offset aligned as asked and ends where the next one may start; nothing is
//! ever freed.
use vstd::prelude::*;

verus! {

/// Size of a program's heap.
pub const HEAP_SIZE: usize = 1024 * 1024;

/// `x` rounded up to a multiple of `align`.
pub open spec fn align_up(x: int, align: int) -> int {
    if x % align == 0 { x } else { x - x % align + align }
}

/// Where an allocation of `size` bytes aligned to `align` goes when the
/// heap is used up to `offset`: its start and the new used length, or
/// `None` when it does not fit in a heap of `heap_size` bytes.
pub fn bump(offset: usize, align: usize, size: usize, heap_size: usize) -> (r: Option<(usize, usize)>)
    requires
        align > 0,
        align & ((align - 1) as usize) == 0,
        offset <= heap_size,
        heap_size <= usize::MAX / 2,
        align <= usize::MAX / 2,
    ensures
        match r {
            Some((start, end)) => start == align_up(offset as int, align as int) && end == start + size
                && end <= heap_size,
            None => align_up(offset as int, align as int) + size > heap_size,
        },
{
    let bumped = offset + (align - 1);
    assert(bumped / align * align <= bumped) by (nonlinear_arith)
        requires align > 0;
    let aligned = bumped / align * align;
    assert(aligned == align_up(offset as int, align as int)) by (nonlinear_arith)
        requires
            bumped == offset + align - 1,
            aligned == bumped / align * align,
            align > 0,
            offset >= 0;
    if size > heap_size || aligned > heap_size - size {
        return None;
    }
    Some((aligned, aligned + size))
}

/// An allocation starts at a multiple of its alignment, no lower than
/// where the heap was used up to and less than one alignment above it; the
/// next allocation starts no lower than where this one ends, so no two
/// allocations overlap.
pub proof fn law_bump_aligned(offset: int, align: int, size: int)
    requires
        0 <= offset,
        0 < align,
        0 <= size,
    ensures
        align_up(offset, align) % align == 0,
        offset <= align_up(offset, align) < offset + align,
        align_up(offset, align) + size <= align_up(align_up(offset, align) + size, align),
{
    let x = offset;
    let a = align;
    assert((x - x % a + a) % a == 0) by (nonlinear_arith)
        requires a > 0, x >= 0;
    let e = align_up(x, a) + size;
    assert(e <= align_up(e, a)) by (nonlinear_arith)
        requires a > 0, e >= 0;
}

} // verus!
