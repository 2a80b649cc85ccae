//! A cooperative, single-threaded fiber scheduler.
//!
//! A fiber is a user-level thread of execution with its own stack. Fibers are
//! registered with an [`executor::Executor`], which round-robins among them:
//! each fiber runs until it voluntarily yields (it is then re-enqueued at the
//! tail of the ready queue) or until it finishes (its stack is then
//! reclaimed). Scheduling is strictly FIFO, so the interleaving of run-slices
//! is a function of registration order and of when each fiber yields.
//!
//! The work a fiber performs between yield points is described by a step
//! program (a sequence of [`fiber::FiberOp`] values), which the scheduler's
//! trampoline interprets; the program counter of a suspended fiber is its
//! resume point. The architecture-level register switch that a native fiber
//! runtime would perform between two stacks is platform work that this crate
//! does not do; the crate owns the stack memory, the ready queue, and the
//! scheduling decisions, and proves the trace of every run equal to the
//! round-robin schedule [`schedule::sched`] of the registered programs.

use vstd::prelude::*;

pub mod executor;
pub mod fiber;
pub mod laws;
pub mod schedule;
pub mod stack;

verus! {

} // verus!
