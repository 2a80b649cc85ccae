//! Fibers and the events a run of the scheduler records.

use vstd::prelude::*;

use crate::stack::Stack;

verus! {

/// A fiber's scheduling state.
///
/// A fiber is `Running` only during the interval between being switched into
/// and switching back out; whenever the scheduler itself is the active
/// context, every fiber is `Suspended` or `Finished`. `Finished` is terminal:
/// a finished fiber is dropped and its stack reclaimed, never switched into
/// again.
#[derive(Clone, Copy, PartialEq, Eq, Structural, Debug)]
pub enum FiberState {
    Running,
    Suspended,
    Finished,
}

/// One step of a fiber's program, interpreted by the scheduler's trampoline.
#[derive(Clone, Copy, PartialEq, Eq, Structural, Debug)]
pub enum FiberOp {
    /// Produce the value as output and continue within the same run-slice.
    Emit(u64),
    /// Suspend voluntarily: end this run-slice and rejoin the ready queue.
    Yield,
}

/// One event of a run's trace. The first field is always the fiber's id.
#[derive(Clone, Copy, PartialEq, Eq, Structural, Debug)]
pub enum Event {
    /// The scheduler switched into the fiber: a run-slice begins.
    Enter(u64),
    /// The fiber produced an output value during its run-slice.
    Output(u64, u64),
    /// Control returned to the scheduler: a run-slice ends. The flag says
    /// whether the fiber finished (`true`) or merely yielded (`false`).
    Exit(u64, bool),
}

/// A fiber: an execution context, a scheduling state, and the program the
/// trampoline runs on that context. The program counter `pc` is the fiber's
/// resume point within its program: everything before it has already run.
pub struct Fiber {
    /// Identity of the fiber, assigned at registration, never reused.
    pub id: u64,
    /// The stack this fiber runs on.
    pub stack: Stack,
    /// The fiber's scheduling state.
    pub state: FiberState,
    /// The steps the fiber performs, in order.
    pub program: Vec<FiberOp>,
    /// Index of the next step to run.
    pub pc: usize,
}

impl Fiber {
    /// The steps this fiber has not yet run.
    pub open spec fn rem(self) -> Seq<FiberOp> {
        self.program@.skip(self.pc as int)
    }

    /// Well-formedness: the resume point lies within the program and the
    /// fiber owns a well-formed, allocated stack.
    pub open spec fn wf(self) -> bool {
        &&& self.pc <= self.program@.len()
        &&& self.stack.wf()
        &&& self.stack.allocated
    }
}

} // verus!
