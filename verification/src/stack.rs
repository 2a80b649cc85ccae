//! Stack memory for one execution context.
//!
//! Every fiber owns a fixed-size block of stack memory together with the
//! bookkeeping a context switch needs: the offset one past the usable top of
//! the stack (`bottom`, rounded down so the stack grows from an aligned
//! boundary), the current resume-point offset (`top`), and a flag saying
//! whether this context owns an allocated block at all. The scheduler's home
//! context represents the caller's original stack and owns no block.

use vstd::prelude::*;

verus! {

/// Stack size used when the caller does not pick one, in bytes.
pub const DEFAULT_STACK_SIZE: usize = 2000;

/// Alignment required of the top-of-stack boundary, in bytes.
pub const STACK_ALIGN: usize = 16;

/// Smallest stack a fiber may be given, in bytes.
pub const MIN_STACK_SIZE: usize = 256;

/// Largest stack a fiber may be given, in bytes.
pub const MAX_STACK_SIZE: usize = 0x100_0000;

/// One execution context's stack: an owned block of memory plus the offsets
/// a context switch saves and restores.
pub struct Stack {
    /// The owned block of stack memory; empty for the home context.
    pub memory: Vec<u8>,
    /// Offset one past the usable region: the aligned top-of-stack boundary.
    pub bottom: usize,
    /// Resume-point offset: where execution continues when switched into.
    pub top: usize,
    /// Bytes trimmed off the block's end to reach the aligned boundary.
    pub align: u8,
    /// Whether this context owns an allocated block of stack memory.
    pub allocated: bool,
}

impl Stack {
    /// Bytes of stack memory this context owns.
    pub open spec fn size(self) -> nat {
        self.memory@.len()
    }

    /// Well-formedness: an allocated stack has a block within the accepted
    /// size bounds, its usable region ends on an aligned boundary, and its
    /// resume point lies inside the usable region; the home context owns
    /// nothing.
    pub open spec fn wf(self) -> bool {
        if self.allocated {
            &&& MIN_STACK_SIZE <= self.size() <= MAX_STACK_SIZE
            &&& self.align == self.size() % (STACK_ALIGN as nat)
            &&& self.bottom == self.size() - self.align
            &&& self.bottom % STACK_ALIGN == 0
            &&& self.top <= self.bottom
        } else {
            &&& self.size() == 0
            &&& self.bottom == 0
            &&& self.top == 0
            &&& self.align == 0
        }
    }

    /// Allocates and primes a stack of `size` bytes for a fresh fiber.
    ///
    /// The top-of-stack boundary is the largest aligned offset within the
    /// block, and the resume point starts at that boundary (a fresh context
    /// resumes at the trampoline entry with an empty stack). Sizes outside
    /// the accepted bounds are rejected, so a stack can neither be too small
    /// to run the trampoline nor unboundedly large.
    pub fn init(size: usize) -> (r: Option<Stack>)
        ensures
            r is Some <==> MIN_STACK_SIZE <= size <= MAX_STACK_SIZE,
            r is Some ==> r.unwrap().wf() && r.unwrap().allocated && r.unwrap().size() == size
                && r.unwrap().top == r.unwrap().bottom,
    {
        if size < MIN_STACK_SIZE || size > MAX_STACK_SIZE {
            return None;
        }
        let mut memory: Vec<u8> = Vec::new();
        while memory.len() < size
            invariant
                memory@.len() <= size,
            decreases size - memory@.len(),
        {
            memory.push(0);
        }
        let align = size % STACK_ALIGN;
        let bottom = size - align;
        proof {
            let s = size as int;
            let a = STACK_ALIGN as int;
            assert((s - s % a) % a == 0) by (nonlinear_arith)
                requires a > 0 && s >= 0;
        }
        Some(Stack { memory, bottom, top: bottom, align: align as u8, allocated: true })
    }

    /// Whether this context owns an allocated block of stack memory.
    pub fn is_allocated(&self) -> (r: bool)
        ensures
            r == self.allocated,
    {
        self.allocated
    }

    /// Bytes of stack memory this context owns.
    pub fn size_bytes(&self) -> (n: usize)
        ensures
            n == self.size(),
    {
        self.memory.len()
    }
}

impl Default for Stack {
    /// The home context: it stands for the caller's original stack, so it
    /// owns no block of its own and is never reclaimed by the scheduler.
    fn default() -> (s: Stack)
        ensures
            s.wf(),
            !s.allocated,
            s.size() == 0,
    {
        Stack { memory: Vec::new(), bottom: 0, top: 0, align: 0, allocated: false }
    }
}

} // verus!
