//! The fiber scheduler.
//!
//! The executor owns the FIFO ready queue, the home execution context of the
//! thread that called [`Executor::run`], and the trace of events the run
//! records. `run` repeatedly dequeues the head fiber, switches into it for
//! one run-slice, and afterwards either re-enqueues it at the tail (it
//! yielded) or drops it and thereby reclaims its stack (it finished). The
//! trace of a whole run is proved equal to the round-robin schedule
//! [`sched`] of the queue's model, so every scheduling guarantee of the
//! schedule model holds of the executor itself.

use vstd::prelude::*;

use crate::fiber::Event;
use crate::fiber::Fiber;
use crate::fiber::FiberOp;
use crate::fiber::FiberState;
use crate::schedule::first_yield;
use crate::schedule::lemma_first_yield_bounds;
use crate::schedule::lemma_total_ops_push;
use crate::schedule::model_of;
use crate::schedule::outputs_of;
use crate::schedule::rest_after;
use crate::schedule::sched;
use crate::schedule::slice_finishes;
use crate::schedule::slice_outputs;
use crate::schedule::slice_trace;
use crate::schedule::total_ops;
use crate::stack::Stack;
use crate::stack::DEFAULT_STACK_SIZE;
use crate::stack::MAX_STACK_SIZE;
use crate::stack::MIN_STACK_SIZE;

verus! {

/// Number of allocated fiber stacks among the fibers of `q`.
pub open spec fn count_allocated(q: Seq<Fiber>) -> nat
    decreases q.len(),
{
    if q.len() == 0 {
        0
    } else {
        (if q[0].stack.allocated { 1nat } else { 0nat }) + count_allocated(q.skip(1))
    }
}

/// The fiber scheduler: a FIFO ready queue, the home execution context, the
/// id of the fiber presently running (if any), and the trace of the events
/// recorded so far.
pub struct Executor {
    /// The ready queue, head first. Every fiber here is suspended.
    pub queue: Vec<Fiber>,
    /// The home context: the original stack of the thread driving the run.
    pub stack: Stack,
    /// Id of the fiber being run right now, `None` while the scheduler
    /// itself is the active context.
    pub current: Option<u64>,
    /// The events recorded so far, oldest first.
    pub trace: Vec<Event>,
    /// Id the next registered fiber will receive; ids are never reused.
    pub next_id: u64,
}

impl Executor {
    /// Well-formedness: the home context owns no stack of its own, every
    /// queued fiber is well-formed, suspended and carries an id below
    /// `next_id`, and no two queued fibers share an id.
    pub open spec fn wf(self) -> bool {
        &&& self.stack.wf()
        &&& !self.stack.allocated
        &&& forall|i: int|
            0 <= i < self.queue@.len() ==> (#[trigger] self.queue@[i]).wf()
        &&& forall|i: int|
            0 <= i < self.queue@.len() ==> (#[trigger] self.queue@[i]).state is Suspended
        &&& forall|i: int|
            0 <= i < self.queue@.len() ==> (#[trigger] self.queue@[i]).id < self.next_id
        &&& forall|i: int, j: int|
            0 <= i < j < self.queue@.len() ==> self.queue@[i].id != self.queue@[j].id
    }

    /// A fresh scheduler: empty queue, empty trace, no fiber running.
    pub fn new() -> (ex: Executor)
        ensures
            ex.wf(),
            ex.queue@.len() == 0,
            ex.current is None,
            ex.trace@.len() == 0,
            ex.next_id == 0,
    {
        Executor {
            queue: Vec::new(),
            stack: Stack::default(),
            current: None,
            trace: Vec::new(),
            next_id: 0,
        }
    }

    /// Registers a fiber with a stack of the given size: the fiber gets the
    /// next free id and a fresh suspended context, and joins the tail of the
    /// ready queue. It does not begin running until the run loop reaches it.
    /// A stack size outside the accepted bounds is rejected and leaves the
    /// scheduler exactly as it was.
    pub fn enqueue_with_stack(&mut self, program: Vec<FiberOp>, stack_size: usize) -> (r: Option<
        u64,
    >)
        requires
            old(self).wf(),
            old(self).next_id < u64::MAX,
        ensures
            final(self).wf(),
            r is Some <==> MIN_STACK_SIZE <= stack_size <= MAX_STACK_SIZE,
            r is Some ==> r == Some(old(self).next_id) && final(self).next_id == old(self).next_id
                + 1 && model_of(final(self).queue@) == model_of(old(self).queue@).push(
                (old(self).next_id, program@),
            ),
            r is None ==> *final(self) == *old(self),
            final(self).trace@ == old(self).trace@,
            final(self).current == old(self).current,
    {
        match Stack::init(stack_size) {
            None => None,
            Some(stack) => {
                let id = self.next_id;
                let fiber = Fiber { id, stack, state: FiberState::Suspended, program, pc: 0 };
                proof {
                    assert(fiber.rem() =~= fiber.program@);
                }
                self.queue.push(fiber);
                self.next_id = id + 1;
                proof {
                    let q0 = old(self).queue@;
                    assert(model_of(self.queue@) =~= model_of(q0).push((id, fiber.program@)));
                    assert forall|i: int, j: int|
                        0 <= i < j < self.queue@.len() implies self.queue@[i].id
                        != self.queue@[j].id by {
                        if j == q0.len() {
                            assert(self.queue@[i].id < id);
                        }
                    }
                }
                Some(id)
            },
        }
    }

    /// Registers a fiber with the default stack size and returns its id.
    pub fn enqueue(&mut self, program: Vec<FiberOp>) -> (id: u64)
        requires
            old(self).wf(),
            old(self).next_id < u64::MAX,
        ensures
            final(self).wf(),
            id == old(self).next_id,
            final(self).next_id == old(self).next_id + 1,
            model_of(final(self).queue@) == model_of(old(self).queue@).push((id, program@)),
            final(self).trace@ == old(self).trace@,
            final(self).current == old(self).current,
    {
        match self.enqueue_with_stack(program, DEFAULT_STACK_SIZE) {
            Some(id) => id,
            None => vstd::pervasive::unreached(),
        }
    }

    /// Marks the running fiber with its next state and hands control back to
    /// the scheduler's home context. The cooperative suspension point: a
    /// run-slice ends exactly here, either yielded (`Suspended`) or done
    /// (`Finished`). Only the trampoline calls it, always with a running
    /// fiber, so it never reanimates a finished fiber.
    fn suspend(&mut self, fiber: &mut Fiber, state: FiberState)
        requires
            old(fiber).state is Running,
            !(state is Running),
        ensures
            *final(self) == *old(self),
            final(fiber).state == state,
            final(fiber).id == old(fiber).id,
            final(fiber).stack == old(fiber).stack,
            final(fiber).program == old(fiber).program,
            final(fiber).pc == old(fiber).pc,
    {
        fiber.state = state;
    }

    /// Runs one run-slice of the fiber's program on the fiber's own context:
    /// every `Emit` up to the fiber's next `Yield` (the fiber then suspends)
    /// or to the end of its program (the fiber then finishes). The entry
    /// point of every fresh fiber context, and the resume point of every
    /// suspended one.
    #[verifier::loop_isolation(false)]
    fn trampoline(&mut self, fiber: &mut Fiber)
        requires
            old(fiber).wf(),
            old(fiber).state is Running,
        ensures
            final(self).queue@ == old(self).queue@,
            final(self).stack == old(self).stack,
            final(self).current == old(self).current,
            final(self).next_id == old(self).next_id,
            final(self).trace@ == old(self).trace@ + slice_outputs(
                old(fiber).id,
                old(fiber).rem(),
            ),
            final(fiber).wf(),
            final(fiber).id == old(fiber).id,
            final(fiber).stack == old(fiber).stack,
            final(fiber).program == old(fiber).program,
            final(fiber).state is Finished <==> slice_finishes(old(fiber).rem()),
            final(fiber).state is Finished || final(fiber).state is Suspended,
            final(fiber).state is Suspended ==> final(fiber).rem() == rest_after(old(fiber).rem()),
    {
        let ghost pc0 = old(fiber).pc as int;
        let ghost rem0 = old(fiber).rem();
        let ghost trace0 = old(self).trace@;
        loop
            invariant
                fiber.wf(),
                fiber.state is Running,
                fiber.id == old(fiber).id,
                fiber.stack == old(fiber).stack,
                fiber.program == old(fiber).program,
                pc0 <= fiber.pc <= fiber.program@.len(),
                self.queue@ == old(self).queue@,
                self.stack == old(self).stack,
                self.current == old(self).current,
                self.next_id == old(self).next_id,
                trace0.len() <= self.trace@.len(),
                slice_outputs(fiber.id, rem0) == self.trace@.skip(trace0.len() as int)
                    + slice_outputs(fiber.id, fiber.rem()),
                first_yield(rem0) == (fiber.pc - pc0) + first_yield(fiber.rem()),
                self.trace@.take(trace0.len() as int) == trace0,
                rem0 == old(fiber).rem(),
                trace0 == old(self).trace@,
                pc0 == old(fiber).pc,
            decreases fiber.program@.len() - fiber.pc,
        {
            if fiber.pc == fiber.program.len() {
                proof {
                    assert(fiber.rem() =~= Seq::<FiberOp>::empty());
                    lemma_first_yield_bounds(rem0);
                    assert(self.trace@ =~= trace0 + self.trace@.skip(trace0.len() as int));
                    assert(self.trace@.skip(trace0.len() as int) + slice_outputs(
                        fiber.id,
                        fiber.rem(),
                    ) =~= self.trace@.skip(trace0.len() as int));
                }
                self.suspend(fiber, FiberState::Finished);
                return ;
            }
            let ghost rem_prev = fiber.rem();
            let op = fiber.program[fiber.pc];
            proof {
                assert(rem_prev[0] == op);
                assert(rem_prev.skip(1) =~= fiber.program@.skip(fiber.pc + 1));
            }
            fiber.pc = fiber.pc + 1;
            proof {
                assert(fiber.rem() == rem_prev.skip(1));
            }
            match op {
                FiberOp::Emit(v) => {
                    let ghost tpre = self.trace@;
                    self.trace.push(Event::Output(fiber.id, v));
                    proof {
                        let delta = tpre.skip(trace0.len() as int);
                        assert(slice_outputs(fiber.id, rem_prev) == seq![Event::Output(fiber.id, v)]
                            + slice_outputs(fiber.id, fiber.rem()));
                        assert(self.trace@ =~= tpre + seq![Event::Output(fiber.id, v)]);
                        assert(self.trace@.skip(trace0.len() as int) =~= delta + seq![
                            Event::Output(fiber.id, v),
                        ]);
                        assert(delta + (seq![Event::Output(fiber.id, v)] + slice_outputs(
                            fiber.id,
                            fiber.rem(),
                        )) =~= (delta + seq![Event::Output(fiber.id, v)]) + slice_outputs(
                            fiber.id,
                            fiber.rem(),
                        ));
                        assert(self.trace@.take(trace0.len() as int) =~= trace0);
                    }
                },
                FiberOp::Yield => {
                    proof {
                        assert(first_yield(rem_prev) == 0);
                        assert(slice_outputs(fiber.id, rem_prev) =~= Seq::<Event>::empty());
                        assert(self.trace@.skip(trace0.len() as int) + slice_outputs(
                            fiber.id,
                            rem_prev,
                        ) =~= self.trace@.skip(trace0.len() as int));
                        assert(self.trace@ =~= trace0 + self.trace@.skip(trace0.len() as int));
                        lemma_first_yield_bounds(rem0);
                        assert(first_yield(rem0) == fiber.pc - 1 - pc0);
                        assert(rest_after(rem0) =~= old(fiber).program@.skip(fiber.pc as int));
                    }
                    self.suspend(fiber, FiberState::Suspended);
                    return ;
                },
            }
        }
    }

    /// Switches from the home context into the fiber for one run-slice and
    /// back: marks the fiber running, records the slice's `Enter`, lets the
    /// trampoline run the slice, records the slice's `Exit`, and reports the
    /// state the fiber suspended itself with.
    fn switch_to(&mut self, fiber: &mut Fiber) -> (st: FiberState)
        requires
            old(fiber).wf(),
            old(fiber).state is Suspended,
        ensures
            final(self).queue@ == old(self).queue@,
            final(self).stack == old(self).stack,
            final(self).current == old(self).current,
            final(self).next_id == old(self).next_id,
            final(self).trace@ == old(self).trace@ + slice_trace(old(fiber).id, old(fiber).rem()),
            final(fiber).wf(),
            final(fiber).id == old(fiber).id,
            final(fiber).stack == old(fiber).stack,
            st == final(fiber).state,
            st is Finished || st is Suspended,
            st is Finished <==> slice_finishes(old(fiber).rem()),
            st is Suspended ==> final(fiber).rem() == rest_after(old(fiber).rem()),
    {
        fiber.state = FiberState::Running;
        self.trace.push(Event::Enter(fiber.id));
        self.trampoline(fiber);
        let finished = match fiber.state {
            FiberState::Finished => true,
            _ => false,
        };
        self.trace.push(Event::Exit(fiber.id, finished));
        proof {
            assert(finished == slice_finishes(old(fiber).rem()));
            assert(final(self).trace@ =~= old(self).trace@ + slice_trace(
                old(fiber).id,
                old(fiber).rem(),
            ));
        }
        fiber.state
    }

    /// Drives the scheduler until the ready queue drains: dequeues the head
    /// fiber, runs one slice of it, re-enqueues it at the tail if it yielded
    /// and drops it (reclaiming its stack) if it finished. With an empty
    /// queue it returns immediately, recording no event. The events it
    /// appends to the trace are exactly the round-robin schedule of the
    /// queue it started from, so the interleaving is a function of
    /// registration order and of each fiber's yield points alone.
    #[verifier::loop_isolation(false)]
    pub fn run(&mut self)
        requires
            old(self).wf(),
            old(self).current is None,
        ensures
            final(self).wf(),
            final(self).queue@.len() == 0,
            final(self).current is None,
            final(self).next_id == old(self).next_id,
            final(self).trace@ == old(self).trace@ + sched(model_of(old(self).queue@)),
    {
        let ghost trace0 = old(self).trace@;
        let ghost m0 = model_of(old(self).queue@);
        while self.queue.len() != 0
            invariant
                self.wf(),
                self.current is None,
                self.next_id == old(self).next_id,
                self.trace@ + sched(model_of(self.queue@)) == trace0 + sched(m0),
                trace0.len() <= self.trace@.len(),
                self.trace@.take(trace0.len() as int) == trace0,
            decreases total_ops(model_of(self.queue@)) + self.queue@.len(),
        {
            let ghost qpre = self.queue@;
            let ghost m = model_of(qpre);
            let mut fiber = self.queue.remove(0);
            proof {
                assert(self.queue@ =~= qpre.skip(1));
                assert(model_of(self.queue@) =~= m.skip(1));
                assert(m[0] == (fiber.id, fiber.rem()));
            }
            self.current = Some(fiber.id);
            let st = self.switch_to(&mut fiber);
            self.current = None;
            proof {
                lemma_first_yield_bounds(m[0].1);
                if !slice_finishes(m[0].1) {
                    lemma_total_ops_push(m.skip(1), (m[0].0, rest_after(m[0].1)));
                }
            }
            match st {
                FiberState::Finished => {
                    proof {
                        assert((self.trace@ + sched(model_of(self.queue@))) =~= trace0 + sched(
                            m0,
                        ));
                    }
                },
                FiberState::Suspended => {
                    let ghost qmid = self.queue@;
                    self.queue.push(fiber);
                    proof {
                        assert(model_of(self.queue@) =~= model_of(qmid).push(
                            (fiber.id, fiber.rem()),
                        ));
                        assert(model_of(self.queue@) =~= m.skip(1).push(
                            (m[0].0, rest_after(m[0].1)),
                        ));
                        assert forall|i: int, j: int|
                            0 <= i < j < self.queue@.len() implies self.queue@[i].id
                            != self.queue@[j].id by {
                            if j == qmid.len() {
                                assert(qpre[i + 1] == self.queue@[i]);
                                assert(qpre[0] == fiber || qpre[0].id == fiber.id);
                            }
                        }
                        assert((self.trace@ + sched(model_of(self.queue@))) =~= trace0 + sched(
                            m0,
                        ));
                    }
                },
                FiberState::Running => {
                    proof {
                        assert(false);
                    }
                },
            }
            proof {
                assert(self.trace@.take(trace0.len() as int) =~= trace0);
            }
        }
        proof {
            assert(model_of(self.queue@) =~= Seq::<(u64, Seq<FiberOp>)>::empty());
            assert(sched(model_of(self.queue@)) =~= Seq::<Event>::empty());
            assert(self.trace@ + Seq::<Event>::empty() =~= self.trace@);
            assert(final(self).trace@ =~= trace0 + sched(m0));
        }
    }

    /// Number of allocated fiber stacks the scheduler still holds. After a
    /// run drains the queue this is zero: every finished fiber's stack has
    /// been reclaimed.
    #[verifier::loop_isolation(false)]
    pub fn allocated_stacks(&self) -> (n: usize)
        ensures
            n == count_allocated(self.queue@),
            self.wf() ==> n == self.queue@.len(),
    {
        let mut n: usize = 0;
        let mut i: usize = 0;
        proof {
            assert(self.queue@.skip(0) =~= self.queue@);
        }
        while i < self.queue.len()
            invariant
                i <= self.queue@.len(),
                n <= i,
                count_allocated(self.queue@) == n + count_allocated(self.queue@.skip(i as int)),
            decreases self.queue@.len() - i,
        {
            let ghost rest = self.queue@.skip(i as int);
            proof {
                assert(rest[0] == self.queue@[i as int]);
                assert(rest.skip(1) =~= self.queue@.skip(i + 1));
            }
            if self.queue[i].stack.is_allocated() {
                n = n + 1;
            }
            i = i + 1;
        }
        proof {
            assert(self.queue@.skip(self.queue@.len() as int) =~= Seq::<Fiber>::empty());
            if self.wf() {
                lemma_count_allocated_all(self.queue@);
            }
        }
        n
    }

    /// The output values of the trace so far, in order: what the fibers of
    /// every run of this scheduler emitted, interleaved as they ran.
    #[verifier::loop_isolation(false)]
    pub fn outputs(&self) -> (out: Vec<u64>)
        ensures
            out@ == outputs_of(self.trace@),
    {
        let mut out: Vec<u64> = Vec::new();
        let mut i: usize = 0;
        proof {
            assert(self.trace@.skip(0) =~= self.trace@);
            assert(outputs_of(self.trace@) == Seq::<u64>::empty() + outputs_of(self.trace@));
        }
        while i < self.trace.len()
            invariant
                i <= self.trace@.len(),
                outputs_of(self.trace@) == out@ + outputs_of(self.trace@.skip(i as int)),
            decreases self.trace@.len() - i,
        {
            let ghost rest = self.trace@.skip(i as int);
            proof {
                assert(rest[0] == self.trace@[i as int]);
                assert(rest.skip(1) =~= self.trace@.skip(i + 1));
            }
            match self.trace[i] {
                Event::Output(_, v) => {
                    let ghost out_pre = out@;
                    out.push(v);
                    proof {
                        assert(outputs_of(rest) == seq![v] + outputs_of(rest.skip(1)));
                        assert(out@ =~= out_pre + seq![v]);
                        assert(out_pre + (seq![v] + outputs_of(rest.skip(1))) =~= (out_pre
                            + seq![v]) + outputs_of(rest.skip(1)));
                    }
                },
                _ => {},
            }
            i = i + 1;
        }
        proof {
            assert(self.trace@.skip(self.trace@.len() as int) =~= Seq::<Event>::empty());
            assert(out@ + Seq::<u64>::empty() =~= out@);
        }
        out
    }

    /// The events recorded so far, oldest first.
    pub fn trace_events(&self) -> (tr: &Vec<Event>)
        ensures
            tr@ == self.trace@,
    {
        &self.trace
    }
}

impl Default for Executor {
    /// Same as [`Executor::new`].
    fn default() -> (ex: Executor)
        ensures
            ex.wf(),
            ex.queue@.len() == 0,
            ex.current is None,
            ex.trace@.len() == 0,
            ex.next_id == 0,
    {
        Executor::new()
    }
}

/// In a well-formed queue every fiber's stack is allocated, so the allocated
/// count is the queue's length.
proof fn lemma_count_allocated_all(q: Seq<Fiber>)
    requires
        forall|i: int| 0 <= i < q.len() ==> (#[trigger] q[i]).wf(),
    ensures
        count_allocated(q) == q.len(),
    decreases q.len(),
{
    if q.len() != 0 {
        assert(q[0].wf());
        assert forall|i: int| 0 <= i < q.skip(1).len() implies (#[trigger] q.skip(1)[i]).wf() by {
            assert(q.skip(1)[i] == q[i + 1]);
        }
        lemma_count_allocated_all(q.skip(1));
    }
}

} // verus!
