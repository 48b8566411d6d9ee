use vstd::prelude::*;

verus! {

/// Rounds an address down to the nearest 4-byte boundary.
pub open spec fn align_down(a: int) -> int {
    a - a % 4
}

/// The address range owned by one hart's stack, in native (downward) order.
///
/// The stack grows from `start` (its highest word) down towards `end`.
/// `end` is one past the lowest usable word: it belongs to the neighbouring
/// hart's stack and must never be written. Because `start >= end`, this pair
/// is "empty" as an ascending range and must not be iterated as one; use
/// [`stack_rev`] for range-like operations.
#[derive(Clone, Copy, Debug, PartialEq, Eq)]
pub struct StackRegion {
    pub start: usize,
    pub end: usize,
}

/// The same region in ascending order: `start..end` with an exclusive `end`.
///
/// `end` is one word past the region's highest word; it belongs to the next
/// hart's stack and must never be written.
#[derive(Clone, Copy, Debug, PartialEq, Eq)]
pub struct AscendingRange {
    pub start: usize,
    pub end: usize,
}

impl StackRegion {
    /// A valid region: non-inverted, with both bounds word aligned.
    pub open spec fn wf(self) -> bool {
        &&& self.end <= self.start
        &&& self.start % 4 == 0
        &&& self.end % 4 == 0
    }

    /// Size of the region in bytes.
    pub open spec fn size(self) -> int {
        self.start - self.end
    }

    /// Number of 32-bit words that the region holds.
    pub open spec fn word_count(self) -> int {
        (self.start - self.end) / 4
    }

    /// Address of the region's `j`-th word, counted upward from just above `end`.
    pub open spec fn word_addr(self, j: int) -> int {
        self.end + 4 * (j + 1)
    }

    /// Bytes in use when the stack pointer is `sp`.
    pub open spec fn in_use(self, sp: int) -> int {
        self.start - sp
    }

    /// Bytes free when the stack pointer is `sp`, clamped at zero on overflow.
    pub open spec fn free(self, sp: int) -> int {
        if self.size() >= self.in_use(sp) {
            self.size() - self.in_use(sp)
        } else {
            0
        }
    }
}

proof fn lemma_align_down_facts(a: int, b: int)
    requires
        0 <= a <= b,
    ensures
        align_down(a) <= align_down(b),
        align_down(a) % 4 == 0,
        0 <= align_down(a) <= a,
{
    assert(align_down(a) <= align_down(b)) by (nonlinear_arith)
        requires
            0 <= a <= b,
    ;
    assert(align_down(a) % 4 == 0) by (nonlinear_arith)
        requires
            0 <= a,
    ;
}

/// The current hart's stack region, given the top of the combined stack
/// area, the hart's ID and the uniform per-hart stack size in bytes.
///
/// Hart `hartid` owns the block that lies `hartid` stack sizes below the top;
/// both bounds are rounded down to a word boundary, so the effective size of
/// a hart's stack may differ from `hart_stack_size` by up to three bytes.
/// The blocks of all harts up to this one must fit below `stack_top`: that is
/// the boot configuration's promise.
pub fn stack(stack_top: usize, hartid: usize, hart_stack_size: usize) -> (r: StackRegion)
    requires
        hartid * hart_stack_size + hart_stack_size <= stack_top,
    ensures
        r.start == align_down(stack_top - hartid * hart_stack_size),
        r.end == align_down(stack_top - hartid * hart_stack_size - hart_stack_size),
        r.wf(),
{
    assert(0 <= hartid * hart_stack_size) by (nonlinear_arith);
    let top = stack_top - hartid * hart_stack_size;
    let bottom = top - hart_stack_size;
    proof {
        lemma_align_down_facts(bottom as int, top as int);
        lemma_align_down_facts(top as int, top as int);
    }
    StackRegion { start: top - top % 4, end: bottom - bottom % 4 }
}

/// The region in ascending order: one word above `end` up to one word above
/// `start`, the upper bound exclusive.
pub fn stack_rev(region: &StackRegion) -> (r: AscendingRange)
    requires
        region.wf(),
        region.start + 4 <= usize::MAX,
    ensures
        r.start == region.end + 4,
        r.end == region.start + 4,
        r.start <= r.end,
{
    AscendingRange { start: region.end + 4, end: region.start + 4 }
}

/// Number of bytes reserved for the region.
pub fn stack_size(region: &StackRegion) -> (r: usize)
    requires
        region.wf(),
    ensures
        r == region.size(),
{
    region.start - region.end
}

/// Number of bytes of the stack in use with the stack pointer at `sp`.
pub fn current_stack_in_use(region: &StackRegion, sp: usize) -> (r: usize)
    requires
        sp <= region.start,
    ensures
        r == region.in_use(sp as int),
{
    region.start - sp
}

/// Number of bytes of the stack still free with the stack pointer at `sp`;
/// zero once the stack has overflowed past `end`.
pub fn current_stack_free(region: &StackRegion, sp: usize) -> (r: usize)
    requires
        region.wf(),
        sp <= region.start,
    ensures
        r == region.free(sp as int),
        sp > region.end ==> r == sp - region.end,
        sp <= region.end ==> r == 0,
{
    stack_size(region).saturating_sub(current_stack_in_use(region, sp))
}

} // verus!
