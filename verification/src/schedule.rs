//! The mathematical model of a scheduler run.
//!
//! A run of the scheduler is modelled by [`sched`]: a recursive function from
//! the ready queue (each fiber reduced to its id and the steps it has not yet
//! run) to the full trace of events the run records. One recursive step of
//! `sched` is one run-slice: the head fiber runs to its next yield or to the
//! end of its program, is re-enqueued at the tail if it yielded and dropped
//! if it finished, and the scheduler goes on with the rest of the queue.

use vstd::prelude::*;

use crate::fiber::Event;
use crate::fiber::Fiber;
use crate::fiber::FiberOp;

verus! {

/// A fiber as the schedule model sees it: its id and its remaining steps.
pub type Slot = (u64, Seq<FiberOp>);

/// The ready queue as the schedule model sees it.
pub open spec fn model_of(q: Seq<Fiber>) -> Seq<Slot> {
    q.map_values(|f: Fiber| (f.id, f.rem()))
}

/// Index of the first `Yield` in `prog`, or `prog.len()` if there is none:
/// the number of steps the next run-slice of this program performs before it
/// suspends or finishes.
pub open spec fn first_yield(prog: Seq<FiberOp>) -> int
    decreases prog.len(),
{
    if prog.len() == 0 {
        0
    } else if prog[0] is Yield {
        0
    } else {
        1 + first_yield(prog.skip(1))
    }
}

/// Whether a run-slice of `prog` runs off the end of the program, finishing
/// the fiber, rather than stopping at a `Yield`.
pub open spec fn slice_finishes(prog: Seq<FiberOp>) -> bool {
    first_yield(prog) == prog.len()
}

/// The steps left after one run-slice of `prog`: everything past the first
/// `Yield`. Meaningful only when the slice does not finish the fiber.
pub open spec fn rest_after(prog: Seq<FiberOp>) -> Seq<FiberOp> {
    prog.skip(first_yield(prog) + 1)
}

/// The output events one run-slice of `prog` produces for fiber `id`: one
/// per `Emit` before the first `Yield`.
pub open spec fn slice_outputs(id: u64, prog: Seq<FiberOp>) -> Seq<Event>
    decreases prog.len(),
{
    if prog.len() == 0 {
        Seq::empty()
    } else {
        match prog[0] {
            FiberOp::Yield => Seq::empty(),
            FiberOp::Emit(v) => seq![Event::Output(id, v)] + slice_outputs(id, prog.skip(1)),
        }
    }
}

/// The full trace of one run-slice of `prog` for fiber `id`: enter the
/// slice, produce the slice's outputs, exit the slice.
pub open spec fn slice_trace(id: u64, prog: Seq<FiberOp>) -> Seq<Event> {
    seq![Event::Enter(id)] + slice_outputs(id, prog) + seq![Event::Exit(id, slice_finishes(prog))]
}

/// Total number of steps left in the queue; the measure that shrinks with
/// every run-slice.
pub open spec fn total_ops(q: Seq<Slot>) -> nat
    decreases q.len(),
{
    if q.len() == 0 {
        0
    } else {
        q[0].1.len() + total_ops(q.skip(1))
    }
}

/// The trace of a whole run over ready queue `q`, under strict FIFO
/// round-robin: the head fiber runs one slice; if it yielded it re-enters
/// the queue at the tail, if it finished it is dropped; then the rest runs.
pub open spec fn sched(q: Seq<Slot>) -> Seq<Event>
    decreases total_ops(q) + q.len(),
        via sched_decreases
{
    if q.len() == 0 {
        Seq::empty()
    } else {
        let id = q[0].0;
        let prog = q[0].1;
        if slice_finishes(prog) {
            slice_trace(id, prog) + sched(q.skip(1))
        } else {
            slice_trace(id, prog) + sched(q.skip(1).push((id, rest_after(prog))))
        }
    }
}

#[via_fn]
proof fn sched_decreases(q: Seq<Slot>) {
    if q.len() != 0 {
        let prog = q[0].1;
        lemma_first_yield_bounds(prog);
        if !slice_finishes(prog) {
            lemma_total_ops_push(q.skip(1), (q[0].0, rest_after(prog)));
        }
    }
}

/// The first yield of a program lies within it, everything before it is an
/// `Emit`, and where it lies strictly within, a `Yield` stands there.
pub proof fn lemma_first_yield_bounds(prog: Seq<FiberOp>)
    ensures
        0 <= first_yield(prog) <= prog.len(),
        first_yield(prog) < prog.len() ==> prog[first_yield(prog)] is Yield,
        forall|k: int| 0 <= k < first_yield(prog) ==> (#[trigger] prog[k]) is Emit,
    decreases prog.len(),
{
    if prog.len() != 0 && !(prog[0] is Yield) {
        lemma_first_yield_bounds(prog.skip(1));
        assert forall|k: int| 0 <= k < first_yield(prog) implies (#[trigger] prog[k]) is Emit by {
            if k > 0 {
                assert(prog.skip(1)[k - 1] == prog[k]);
            }
        }
    }
}

/// Appending a fiber to the queue adds exactly its remaining steps to the
/// queue's total.
pub proof fn lemma_total_ops_push(q: Seq<Slot>, s: Slot)
    ensures
        total_ops(q.push(s)) == total_ops(q) + s.1.len(),
    decreases q.len(),
{
    if q.len() == 0 {
        assert(q.push(s).skip(1) =~= Seq::<Slot>::empty());
        assert(q.push(s)[0] == s);
        assert(total_ops(Seq::<Slot>::empty()) == 0);
    } else {
        assert(q.push(s).skip(1) =~= q.skip(1).push(s));
        assert(q.push(s)[0] == q[0]);
        lemma_total_ops_push(q.skip(1), s);
        assert(total_ops(q.push(s)) == q[0].1.len() + total_ops(q.skip(1).push(s)));
    }
}

/// The output values of a trace, in order.
pub open spec fn outputs_of(tr: Seq<Event>) -> Seq<u64>
    decreases tr.len(),
{
    if tr.len() == 0 {
        Seq::empty()
    } else {
        match tr[0] {
            Event::Output(_, v) => seq![v] + outputs_of(tr.skip(1)),
            _ => outputs_of(tr.skip(1)),
        }
    }
}

/// The fiber ids of a trace's `Enter` events, in order: which fiber each
/// successive run-slice was given to.
pub open spec fn enters_of(tr: Seq<Event>) -> Seq<u64>
    decreases tr.len(),
{
    if tr.len() == 0 {
        Seq::empty()
    } else {
        match tr[0] {
            Event::Enter(id) => seq![id] + enters_of(tr.skip(1)),
            _ => enters_of(tr.skip(1)),
        }
    }
}

} // verus!
