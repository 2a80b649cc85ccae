//! The scheduling guarantees, stated and proved of the schedule model.
//!
//! [`crate::executor::Executor::run`] proves its trace equal to
//! [`sched`] of the registered programs, so each law here holds of every
//! run of the executor.

use vstd::prelude::*;

use crate::fiber::Event;
use crate::fiber::FiberOp;
use crate::schedule::enters_of;
use crate::schedule::first_yield;
use crate::schedule::lemma_first_yield_bounds;
use crate::schedule::lemma_total_ops_push;
use crate::schedule::rest_after;
use crate::schedule::sched;
use crate::schedule::slice_finishes;
use crate::schedule::slice_outputs;
use crate::schedule::slice_trace;
use crate::schedule::total_ops;
use crate::schedule::Slot;

verus! {

/// Whether some fiber in the queue carries this id.
pub open spec fn has_id(q: Seq<Slot>, id: u64) -> bool {
    exists|i: int| 0 <= i < q.len() && q[i].0 == id
}

/// Whether no two fibers in the queue share an id, as registration
/// guarantees.
pub open spec fn distinct_ids(q: Seq<Slot>) -> bool {
    forall|i: int, j: int| 0 <= i < j < q.len() ==> q[i].0 != q[j].0
}

/// How often the trace records fiber `id` finishing: its `Exit(id, true)`
/// events.
pub open spec fn finish_count(tr: Seq<Event>, id: u64) -> nat
    decreases tr.len(),
{
    if tr.len() == 0 {
        0
    } else {
        (if tr[0] == Event::Exit(id, true) {
            1nat
        } else {
            0nat
        }) + finish_count(tr.skip(1), id)
    }
}

proof fn lemma_finish_count_add(a: Seq<Event>, b: Seq<Event>, id: u64)
    ensures
        finish_count(a + b, id) == finish_count(a, id) + finish_count(b, id),
    decreases a.len(),
{
    if a.len() == 0 {
        assert(a + b =~= b);
    } else {
        assert((a + b).skip(1) =~= a.skip(1) + b);
        assert((a + b)[0] == a[0]);
        lemma_finish_count_add(a.skip(1), b, id);
    }
}

proof fn lemma_finish_count_outputs(oid: u64, prog: Seq<FiberOp>, id: u64)
    ensures
        finish_count(slice_outputs(oid, prog), id) == 0,
    decreases prog.len(),
{
    if prog.len() != 0 {
        match prog[0] {
            FiberOp::Yield => {},
            FiberOp::Emit(v) => {
                lemma_finish_count_outputs(oid, prog.skip(1), id);
                let s = slice_outputs(oid, prog);
                assert(s == seq![Event::Output(oid, v)] + slice_outputs(oid, prog.skip(1)));
                assert(s.skip(1) =~= slice_outputs(oid, prog.skip(1)));
            },
        }
    }
}

proof fn lemma_finish_count_singleton(e: Event, id: u64)
    ensures
        finish_count(seq![e], id) == (if e == Event::Exit(id, true) {
            1nat
        } else {
            0nat
        }),
{
    assert(seq![e].skip(1) =~= Seq::<Event>::empty());
    assert(seq![e][0] == e);
    assert(finish_count(Seq::<Event>::empty(), id) == 0);
}

/// One run-slice records exactly one finish, and only when it is this
/// fiber's finishing slice.
proof fn lemma_finish_count_slice(oid: u64, prog: Seq<FiberOp>, id: u64)
    ensures
        finish_count(slice_trace(oid, prog), id) == (if oid == id && slice_finishes(prog) {
            1nat
        } else {
            0nat
        }),
{
    let enter = seq![Event::Enter(oid)];
    let exit = seq![Event::Exit(oid, slice_finishes(prog))];
    let outs = slice_outputs(oid, prog);
    lemma_finish_count_add(enter + outs, exit, id);
    lemma_finish_count_add(enter, outs, id);
    lemma_finish_count_outputs(oid, prog, id);
    lemma_finish_count_singleton(Event::Enter(oid), id);
    lemma_finish_count_singleton(Event::Exit(oid, slice_finishes(prog)), id);
    assert(slice_trace(oid, prog) == (enter + outs) + exit);
}

/// A fiber that was never registered never finishes in the trace.
proof fn lemma_absent_fiber_never_finishes(q: Seq<Slot>, id: u64)
    requires
        !has_id(q, id),
    ensures
        finish_count(sched(q), id) == 0,
    decreases total_ops(q) + q.len(),
{
    if q.len() != 0 {
        let id0 = q[0].0;
        let prog = q[0].1;
        lemma_first_yield_bounds(prog);
        lemma_finish_count_slice(id0, prog, id);
        if slice_finishes(prog) {
            let q2 = q.skip(1);
            assert(forall|i: int| 0 <= i < q2.len() ==> (#[trigger] q2[i]) == q[i + 1]);
            lemma_finish_count_add(slice_trace(id0, prog), sched(q2), id);
            lemma_absent_fiber_never_finishes(q2, id);
        } else {
            let slot = (id0, rest_after(prog));
            let q2 = q.skip(1).push(slot);
            lemma_total_ops_push(q.skip(1), slot);
            assert(forall|i: int|
                0 <= i < q.skip(1).len() ==> (#[trigger] q.skip(1)[i]) == q[i + 1]);
            lemma_finish_count_add(slice_trace(id0, prog), sched(q2), id);
            lemma_absent_fiber_never_finishes(q2, id);
        }
    }
}

/// Every registered fiber runs to completion exactly once: for every run
/// over a queue of fibers with pairwise distinct ids, the trace records
/// exactly one finishing `Exit` for each registered id. Together with the
/// termination of `run` itself, this is the guarantee that however many
/// fibers are registered and however often each yields, a run ends with
/// each fiber's program done, once.
pub proof fn lemma_each_fiber_finishes_once(q: Seq<Slot>, id: u64)
    requires
        distinct_ids(q),
        has_id(q, id),
    ensures
        finish_count(sched(q), id) == 1,
    decreases total_ops(q) + q.len(),
{
    let id0 = q[0].0;
    let prog = q[0].1;
    lemma_first_yield_bounds(prog);
    lemma_finish_count_slice(id0, prog, id);
    if slice_finishes(prog) {
        let q2 = q.skip(1);
        assert(forall|i: int| 0 <= i < q2.len() ==> (#[trigger] q2[i]) == q[i + 1]);
        lemma_finish_count_add(slice_trace(id0, prog), sched(q2), id);
        if id0 == id {
            assert(!has_id(q2, id));
            lemma_absent_fiber_never_finishes(q2, id);
        } else {
            let w = choose|i: int| 0 <= i < q.len() && q[i].0 == id;
            assert(q2[w - 1].0 == id);
            lemma_each_fiber_finishes_once(q2, id);
        }
    } else {
        let slot = (id0, rest_after(prog));
        let q2 = q.skip(1).push(slot);
        lemma_total_ops_push(q.skip(1), slot);
        assert(forall|i: int| 0 <= i < q.skip(1).len() ==> (#[trigger] q.skip(1)[i]) == q[i + 1]);
        lemma_finish_count_add(slice_trace(id0, prog), sched(q2), id);
        assert(distinct_ids(q2)) by {
            assert forall|i: int, j: int| 0 <= i < j < q2.len() implies q2[i].0 != q2[j].0 by {
                if j == q2.len() - 1 {
                    assert(q2[i] == q[i + 1]);
                }
            }
        }
        if id0 == id {
            assert(q2[q2.len() - 1].0 == id);
        } else {
            let w = choose|i: int| 0 <= i < q.len() && q[i].0 == id;
            assert(q2[w - 1].0 == id);
        }
        lemma_each_fiber_finishes_once(q2, id);
    }
}

proof fn lemma_enters_add(a: Seq<Event>, b: Seq<Event>)
    ensures
        enters_of(a + b) == enters_of(a) + enters_of(b),
    decreases a.len(),
{
    if a.len() == 0 {
        assert(a + b =~= b);
        assert(enters_of(a) + enters_of(b) =~= enters_of(b));
    } else {
        assert((a + b).skip(1) =~= a.skip(1) + b);
        assert((a + b)[0] == a[0]);
        lemma_enters_add(a.skip(1), b);
        match a[0] {
            Event::Enter(id) => {
                assert(seq![id] + (enters_of(a.skip(1)) + enters_of(b)) =~= (seq![id] + enters_of(
                    a.skip(1),
                )) + enters_of(b));
            },
            _ => {},
        }
    }
}

proof fn lemma_enters_outputs(oid: u64, prog: Seq<FiberOp>)
    ensures
        enters_of(slice_outputs(oid, prog)) == Seq::<u64>::empty(),
    decreases prog.len(),
{
    if prog.len() != 0 {
        match prog[0] {
            FiberOp::Yield => {},
            FiberOp::Emit(v) => {
                lemma_enters_outputs(oid, prog.skip(1));
                let s = slice_outputs(oid, prog);
                assert(s == seq![Event::Output(oid, v)] + slice_outputs(oid, prog.skip(1)));
                assert(s.skip(1) =~= slice_outputs(oid, prog.skip(1)));
            },
        }
    }
}

/// One run-slice gives exactly one turn, to the fiber it belongs to.
proof fn lemma_enters_slice(oid: u64, prog: Seq<FiberOp>)
    ensures
        enters_of(slice_trace(oid, prog)) == seq![oid],
{
    let enter = seq![Event::Enter(oid)];
    let exit = seq![Event::Exit(oid, slice_finishes(prog))];
    let outs = slice_outputs(oid, prog);
    lemma_enters_add(enter + outs, exit);
    lemma_enters_add(enter, outs);
    lemma_enters_outputs(oid, prog);
    assert(enters_of(Seq::<Event>::empty()) == Seq::<u64>::empty());
    assert(exit.skip(1) =~= Seq::<Event>::empty());
    assert(exit[0] == Event::Exit(oid, slice_finishes(prog)));
    assert(enters_of(exit) =~= Seq::<u64>::empty());
    assert(enter.skip(1) =~= Seq::<Event>::empty());
    assert(enter[0] == Event::Enter(oid));
    assert(enters_of(enter) == seq![oid] + enters_of(Seq::<Event>::empty()));
    assert(enters_of(enter) =~= seq![oid]);
    assert(slice_trace(oid, prog) == (enter + outs) + exit);
    assert((seq![oid] + Seq::<u64>::empty()) + Seq::<u64>::empty() =~= seq![oid]);
}

/// FIFO fairness of the first round: in every run, the first turn of each
/// registered fiber comes in registration order — the first `Enter` events
/// of the trace are exactly the queue's ids, in order. In particular, a
/// fiber registered earlier begins its first run-slice before one
/// registered later.
pub proof fn lemma_fifo_first_round(q: Seq<Slot>)
    ensures
        enters_of(sched(q)).len() >= q.len(),
        forall|i: int| 0 <= i < q.len() ==> enters_of(sched(q))[i] == q[i].0,
    decreases total_ops(q) + q.len(),
{
    if q.len() != 0 {
        let id0 = q[0].0;
        let prog = q[0].1;
        lemma_first_yield_bounds(prog);
        lemma_enters_slice(id0, prog);
        if slice_finishes(prog) {
            let q2 = q.skip(1);
            lemma_enters_add(slice_trace(id0, prog), sched(q2));
            lemma_fifo_first_round(q2);
            assert(forall|i: int| 0 <= i < q2.len() ==> (#[trigger] q2[i]) == q[i + 1]);
            assert(enters_of(sched(q)) == seq![id0] + enters_of(sched(q2)));
        } else {
            let slot = (id0, rest_after(prog));
            let q2 = q.skip(1).push(slot);
            lemma_total_ops_push(q.skip(1), slot);
            lemma_enters_add(slice_trace(id0, prog), sched(q2));
            lemma_fifo_first_round(q2);
            assert(forall|i: int|
                0 <= i < q.skip(1).len() ==> (#[trigger] q.skip(1)[i]) == q[i + 1]);
            assert(enters_of(sched(q)) == seq![id0] + enters_of(sched(q2)));
        }
    }
}

/// The values a program emits, in order, over all its run-slices.
pub open spec fn emits_in(prog: Seq<FiberOp>) -> Seq<u64>
    decreases prog.len(),
{
    if prog.len() == 0 {
        Seq::empty()
    } else {
        match prog[0] {
            FiberOp::Emit(v) => seq![v] + emits_in(prog.skip(1)),
            FiberOp::Yield => emits_in(prog.skip(1)),
        }
    }
}

/// The output values the trace records for fiber `id`, in order.
pub open spec fn outputs_for(tr: Seq<Event>, id: u64) -> Seq<u64>
    decreases tr.len(),
{
    if tr.len() == 0 {
        Seq::empty()
    } else {
        match tr[0] {
            Event::Output(oid, v) => if oid == id {
                seq![v] + outputs_for(tr.skip(1), id)
            } else {
                outputs_for(tr.skip(1), id)
            },
            _ => outputs_for(tr.skip(1), id),
        }
    }
}

proof fn lemma_outputs_for_add(a: Seq<Event>, b: Seq<Event>, id: u64)
    ensures
        outputs_for(a + b, id) == outputs_for(a, id) + outputs_for(b, id),
    decreases a.len(),
{
    if a.len() == 0 {
        assert(a + b =~= b);
        assert(outputs_for(a, id) + outputs_for(b, id) =~= outputs_for(b, id));
    } else {
        assert((a + b).skip(1) =~= a.skip(1) + b);
        assert((a + b)[0] == a[0]);
        lemma_outputs_for_add(a.skip(1), b, id);
        match a[0] {
            Event::Output(oid, v) => {
                if oid == id {
                    assert(seq![v] + (outputs_for(a.skip(1), id) + outputs_for(b, id)) =~= (
                    seq![v] + outputs_for(a.skip(1), id)) + outputs_for(b, id));
                }
            },
            _ => {},
        }
    }
}

/// One run-slice delivers for its own fiber exactly the head of the
/// program's emits: the whole program's emits are the slice's outputs
/// followed by the emits of what is left after the slice.
proof fn lemma_slice_outputs_decompose(id: u64, prog: Seq<FiberOp>)
    ensures
        slice_finishes(prog) ==> outputs_for(slice_outputs(id, prog), id) == emits_in(prog),
        !slice_finishes(prog) ==> emits_in(prog) == outputs_for(slice_outputs(id, prog), id)
            + emits_in(rest_after(prog)),
    decreases prog.len(),
{
    lemma_first_yield_bounds(prog);
    if prog.len() == 0 {
        assert(outputs_for(slice_outputs(id, prog), id) =~= Seq::<u64>::empty());
    } else {
        match prog[0] {
            FiberOp::Yield => {
                assert(first_yield(prog) == 0);
                assert(rest_after(prog) =~= prog.skip(1));
                assert(outputs_for(slice_outputs(id, prog), id) =~= Seq::<u64>::empty());
                assert(Seq::<u64>::empty() + emits_in(prog.skip(1)) =~= emits_in(prog.skip(1)));
            },
            FiberOp::Emit(v) => {
                lemma_slice_outputs_decompose(id, prog.skip(1));
                let s = slice_outputs(id, prog);
                assert(s == seq![Event::Output(id, v)] + slice_outputs(id, prog.skip(1)));
                assert(s.len() != 0 && s[0] == Event::Output(id, v));
                assert(s.skip(1) =~= slice_outputs(id, prog.skip(1)));
                assert(outputs_for(s, id) == seq![v] + outputs_for(
                    slice_outputs(id, prog.skip(1)),
                    id,
                ));
                if !slice_finishes(prog) {
                    lemma_first_yield_bounds(prog.skip(1));
                    assert(rest_after(prog) =~= rest_after(prog.skip(1)));
                    assert(seq![v] + (outputs_for(slice_outputs(id, prog.skip(1)), id) + emits_in(
                        rest_after(prog.skip(1)),
                    )) =~= (seq![v] + outputs_for(slice_outputs(id, prog.skip(1)), id)) + emits_in(
                        rest_after(prog.skip(1)),
                    ));
                }
            },
        }
    }
}

/// A run-slice of another fiber delivers nothing for this one.
proof fn lemma_slice_outputs_other(oid: u64, prog: Seq<FiberOp>, id: u64)
    requires
        oid != id,
    ensures
        outputs_for(slice_outputs(oid, prog), id) == Seq::<u64>::empty(),
    decreases prog.len(),
{
    if prog.len() != 0 {
        match prog[0] {
            FiberOp::Yield => {},
            FiberOp::Emit(v) => {
                lemma_slice_outputs_other(oid, prog.skip(1), id);
                let s = slice_outputs(oid, prog);
                assert(s == seq![Event::Output(oid, v)] + slice_outputs(oid, prog.skip(1)));
                assert(s.skip(1) =~= slice_outputs(oid, prog.skip(1)));
            },
        }
    }
}

/// What one whole run-slice delivers for fiber `id`.
proof fn lemma_outputs_for_slice(oid: u64, prog: Seq<FiberOp>, id: u64)
    ensures
        outputs_for(slice_trace(oid, prog), id) == (if oid == id {
            outputs_for(slice_outputs(oid, prog), id)
        } else {
            Seq::<u64>::empty()
        }),
{
    let enter = seq![Event::Enter(oid)];
    let exit = seq![Event::Exit(oid, slice_finishes(prog))];
    let outs = slice_outputs(oid, prog);
    lemma_outputs_for_add(enter + outs, exit, id);
    lemma_outputs_for_add(enter, outs, id);
    assert(enter.skip(1) =~= Seq::<Event>::empty());
    assert(exit.skip(1) =~= Seq::<Event>::empty());
    assert(enter[0] == Event::Enter(oid));
    assert(exit[0] == Event::Exit(oid, slice_finishes(prog)));
    assert(outputs_for(Seq::<Event>::empty(), id) == Seq::<u64>::empty());
    assert(outputs_for(enter, id) =~= Seq::<u64>::empty());
    assert(outputs_for(exit, id) =~= Seq::<u64>::empty());
    assert(slice_trace(oid, prog) == (enter + outs) + exit);
    if oid != id {
        lemma_slice_outputs_other(oid, prog, id);
    }
    assert((Seq::<u64>::empty() + outputs_for(outs, id)) + Seq::<u64>::empty() =~= outputs_for(
        outs,
        id,
    ));
}

/// A fiber that was never registered is never heard from.
proof fn lemma_absent_fiber_no_outputs(q: Seq<Slot>, id: u64)
    requires
        !has_id(q, id),
    ensures
        outputs_for(sched(q), id) == Seq::<u64>::empty(),
    decreases total_ops(q) + q.len(),
{
    if q.len() != 0 {
        let id0 = q[0].0;
        let prog = q[0].1;
        lemma_first_yield_bounds(prog);
        lemma_outputs_for_slice(id0, prog, id);
        if slice_finishes(prog) {
            let q2 = q.skip(1);
            assert(forall|i: int| 0 <= i < q2.len() ==> (#[trigger] q2[i]) == q[i + 1]);
            lemma_outputs_for_add(slice_trace(id0, prog), sched(q2), id);
            lemma_absent_fiber_no_outputs(q2, id);
            assert(Seq::<u64>::empty() + Seq::<u64>::empty() =~= Seq::<u64>::empty());
        } else {
            let slot = (id0, rest_after(prog));
            let q2 = q.skip(1).push(slot);
            lemma_total_ops_push(q.skip(1), slot);
            assert(forall|i: int|
                0 <= i < q.skip(1).len() ==> (#[trigger] q.skip(1)[i]) == q[i + 1]);
            lemma_outputs_for_add(slice_trace(id0, prog), sched(q2), id);
            lemma_absent_fiber_no_outputs(q2, id);
            assert(Seq::<u64>::empty() + Seq::<u64>::empty() =~= Seq::<u64>::empty());
        }
    }
}

/// Every registered fiber's program runs to completion: the output values
/// the run's trace records for it are exactly the values its program emits,
/// all of them, in program order — nothing lost across its yields and
/// nothing reordered by the other fibers' slices.
pub proof fn lemma_fiber_outputs_complete(q: Seq<Slot>, i: int)
    requires
        distinct_ids(q),
        0 <= i < q.len(),
    ensures
        outputs_for(sched(q), q[i].0) == emits_in(q[i].1),
    decreases total_ops(q) + q.len(),
{
    let id = q[i].0;
    let id0 = q[0].0;
    let prog = q[0].1;
    lemma_first_yield_bounds(prog);
    lemma_outputs_for_slice(id0, prog, id);
    if slice_finishes(prog) {
        let q2 = q.skip(1);
        assert(forall|j: int| 0 <= j < q2.len() ==> (#[trigger] q2[j]) == q[j + 1]);
        lemma_outputs_for_add(slice_trace(id0, prog), sched(q2), id);
        if i == 0 {
            lemma_slice_outputs_decompose(id, prog);
            assert(!has_id(q2, id));
            lemma_absent_fiber_no_outputs(q2, id);
            assert(emits_in(prog) + Seq::<u64>::empty() =~= emits_in(prog));
        } else {
            lemma_fiber_outputs_complete(q2, i - 1);
            assert(Seq::<u64>::empty() + emits_in(q[i].1) =~= emits_in(q[i].1));
        }
    } else {
        let slot = (id0, rest_after(prog));
        let q2 = q.skip(1).push(slot);
        lemma_total_ops_push(q.skip(1), slot);
        assert(forall|j: int| 0 <= j < q.skip(1).len() ==> (#[trigger] q.skip(1)[j]) == q[j + 1]);
        lemma_outputs_for_add(slice_trace(id0, prog), sched(q2), id);
        assert(distinct_ids(q2)) by {
            assert forall|a: int, b: int| 0 <= a < b < q2.len() implies q2[a].0 != q2[b].0 by {
                if b == q2.len() - 1 {
                    assert(q2[a] == q[a + 1]);
                }
            }
        }
        if i == 0 {
            lemma_fiber_outputs_complete(q2, q2.len() - 1);
            lemma_slice_outputs_decompose(id, prog);
        } else {
            lemma_fiber_outputs_complete(q2, i - 1);
            assert(Seq::<u64>::empty() + emits_in(q[i].1) =~= emits_in(q[i].1));
        }
    }
}

/// Number of `Yield` steps in a program: how often a fiber running it
/// suspends before it returns.
pub open spec fn yields_in(prog: Seq<FiberOp>) -> nat
    decreases prog.len(),
{
    if prog.len() == 0 {
        0
    } else {
        (if prog[0] is Yield {
            1nat
        } else {
            0nat
        }) + yields_in(prog.skip(1))
    }
}

/// Whether every fiber of the queue yields exactly `k` times before it
/// returns.
pub open spec fn uniform_yields(q: Seq<Slot>, k: nat) -> bool {
    forall|i: int| 0 <= i < q.len() ==> yields_in((#[trigger] q[i]).1) == k
}

/// The queue's ids, in order.
pub open spec fn ids_of(q: Seq<Slot>) -> Seq<u64> {
    q.map_values(|s: Slot| s.0)
}

/// `ids` repeated `n` times over.
pub open spec fn repeat_ids(ids: Seq<u64>, n: nat) -> Seq<u64>
    decreases n,
{
    if n == 0 {
        Seq::empty()
    } else {
        ids + repeat_ids(ids, (n - 1) as nat)
    }
}

/// The queue after one full round: every fiber reduced to the steps past
/// its next `Yield`.
pub open spec fn rest_of(q: Seq<Slot>) -> Seq<Slot> {
    q.map_values(|s: Slot| (s.0, rest_after(s.1)))
}

/// A program without a `Yield` finishes in its first run-slice.
proof fn lemma_no_yield_finishes(prog: Seq<FiberOp>)
    requires
        yields_in(prog) == 0,
    ensures
        slice_finishes(prog),
    decreases prog.len(),
{
    if prog.len() != 0 {
        lemma_no_yield_finishes(prog.skip(1));
    }
}

/// A program that still yields suspends at its next run-slice, and the
/// remainder yields exactly one time fewer.
proof fn lemma_yields_after_slice(prog: Seq<FiberOp>)
    requires
        yields_in(prog) >= 1,
    ensures
        !slice_finishes(prog),
        yields_in(rest_after(prog)) == yields_in(prog) - 1,
    decreases prog.len(),
{
    lemma_first_yield_bounds(prog);
    if prog[0] is Yield {
        assert(first_yield(prog) == 0);
        assert(rest_after(prog) =~= prog.skip(1));
    } else {
        lemma_yields_after_slice(prog.skip(1));
        assert(first_yield(prog) == 1 + first_yield(prog.skip(1)));
        assert(rest_after(prog) =~= rest_after(prog.skip(1))) by {
            lemma_first_yield_bounds(prog.skip(1));
            assert(rest_after(prog.skip(1)) =~= prog.skip(1).skip(first_yield(prog.skip(1)) + 1));
        }
    }
}

/// One full round over fibers that all still yield: each gets exactly one
/// turn, in queue order, and rejoins the tail reduced past its next yield.
proof fn lemma_round(q1: Seq<Slot>, q2: Seq<Slot>, k: nat)
    requires
        uniform_yields(q1, k),
        k >= 1,
    ensures
        enters_of(sched(q1 + q2)) == ids_of(q1) + enters_of(sched(q2 + rest_of(q1))),
    decreases q1.len(),
{
    if q1.len() == 0 {
        assert(q1 + q2 =~= q2);
        assert(q2 + rest_of(q1) =~= q2);
        assert(ids_of(q1) + enters_of(sched(q2)) =~= enters_of(sched(q2)));
    } else {
        let h = q1[0];
        assert(yields_in(h.1) == k);
        lemma_yields_after_slice(h.1);
        lemma_first_yield_bounds(h.1);
        let r = (h.0, rest_after(h.1));
        assert((q1 + q2)[0] == h);
        assert((q1 + q2).len() != 0);
        lemma_total_ops_push((q1 + q2).skip(1), r);
        assert(sched(q1 + q2) == slice_trace(h.0, h.1) + sched((q1 + q2).skip(1).push(r)));
        assert((q1 + q2).skip(1).push(r) =~= q1.skip(1) + q2.push(r));
        assert(uniform_yields(q1.skip(1), k)) by {
            assert(forall|i: int|
                0 <= i < q1.skip(1).len() ==> (#[trigger] q1.skip(1)[i]) == q1[i + 1]);
        }
        lemma_round(q1.skip(1), q2.push(r), k);
        assert(q2.push(r) + rest_of(q1.skip(1)) =~= q2 + rest_of(q1));
        lemma_enters_add(slice_trace(h.0, h.1), sched(q1.skip(1) + q2.push(r)));
        lemma_enters_slice(h.0, h.1);
        assert(enters_of(sched(q1 + q2)) == seq![h.0] + (ids_of(q1.skip(1)) + enters_of(
            sched(q2 + rest_of(q1)),
        )));
        assert(seq![h.0] + (ids_of(q1.skip(1)) + enters_of(sched(q2 + rest_of(q1)))) =~= (
        seq![h.0] + ids_of(q1.skip(1))) + enters_of(sched(q2 + rest_of(q1))));
        assert(seq![h.0] + ids_of(q1.skip(1)) =~= ids_of(q1));
    }
}

/// With no yields left anywhere, one round finishes every fiber, each
/// entered once in queue order.
proof fn lemma_final_round(q: Seq<Slot>)
    requires
        uniform_yields(q, 0),
    ensures
        enters_of(sched(q)) == ids_of(q),
    decreases q.len(),
{
    if q.len() == 0 {
        assert(ids_of(q) =~= Seq::<u64>::empty());
    } else {
        let h = q[0];
        assert(yields_in(h.1) == 0);
        lemma_no_yield_finishes(h.1);
        assert(uniform_yields(q.skip(1), 0)) by {
            assert(forall|i: int| 0 <= i < q.skip(1).len() ==> (#[trigger] q.skip(1)[i]) == q[i
                + 1]);
        }
        lemma_final_round(q.skip(1));
        lemma_enters_add(slice_trace(h.0, h.1), sched(q.skip(1)));
        lemma_enters_slice(h.0, h.1);
        assert(seq![h.0] + ids_of(q.skip(1)) =~= ids_of(q));
    }
}

/// Round-robin fairness over a whole run: if every registered fiber yields
/// exactly `k` times before it returns, the trace's enter sequence is the
/// registration order repeated `k + 1` times over — each round gives every
/// fiber exactly one turn, in registration order, before any fiber gets its
/// next turn.
pub proof fn lemma_uniform_round_robin(q: Seq<Slot>, k: nat)
    requires
        uniform_yields(q, k),
    ensures
        enters_of(sched(q)) == repeat_ids(ids_of(q), k + 1),
    decreases k,
{
    if k == 0 {
        lemma_final_round(q);
        assert(repeat_ids(ids_of(q), 1) == ids_of(q) + repeat_ids(ids_of(q), 0));
        assert(ids_of(q) + Seq::<u64>::empty() =~= ids_of(q));
    } else {
        lemma_round(q, Seq::<Slot>::empty(), k);
        assert(q + Seq::<Slot>::empty() =~= q);
        assert(Seq::<Slot>::empty() + rest_of(q) =~= rest_of(q));
        assert(uniform_yields(rest_of(q), (k - 1) as nat)) by {
            assert forall|i: int|
                0 <= i < rest_of(q).len() implies yields_in(
                (#[trigger] rest_of(q)[i]).1,
            ) == k - 1 by {
                assert(yields_in(q[i].1) == k);
                lemma_yields_after_slice(q[i].1);
            }
        }
        lemma_uniform_round_robin(rest_of(q), (k - 1) as nat);
        assert(ids_of(rest_of(q)) =~= ids_of(q));
        assert(enters_of(sched(q)) == ids_of(q) + repeat_ids(ids_of(q), k));
    }
}

/// How often the trace gives fiber `id` a turn: its `Enter(id)` events.
pub open spec fn enter_count(tr: Seq<Event>, id: u64) -> nat
    decreases tr.len(),
{
    if tr.len() == 0 {
        0
    } else {
        (if tr[0] == Event::Enter(id) {
            1nat
        } else {
            0nat
        }) + enter_count(tr.skip(1), id)
    }
}

proof fn lemma_enter_count_add(a: Seq<Event>, b: Seq<Event>, id: u64)
    ensures
        enter_count(a + b, id) == enter_count(a, id) + enter_count(b, id),
    decreases a.len(),
{
    if a.len() == 0 {
        assert(a + b =~= b);
    } else {
        assert((a + b).skip(1) =~= a.skip(1) + b);
        assert((a + b)[0] == a[0]);
        lemma_enter_count_add(a.skip(1), b, id);
    }
}

proof fn lemma_enter_count_outputs(oid: u64, prog: Seq<FiberOp>, id: u64)
    ensures
        enter_count(slice_outputs(oid, prog), id) == 0,
    decreases prog.len(),
{
    if prog.len() != 0 {
        match prog[0] {
            FiberOp::Yield => {},
            FiberOp::Emit(v) => {
                lemma_enter_count_outputs(oid, prog.skip(1), id);
                let s = slice_outputs(oid, prog);
                assert(s == seq![Event::Output(oid, v)] + slice_outputs(oid, prog.skip(1)));
                assert(s.skip(1) =~= slice_outputs(oid, prog.skip(1)));
            },
        }
    }
}

proof fn lemma_enter_count_singleton(e: Event, id: u64)
    ensures
        enter_count(seq![e], id) == (if e == Event::Enter(id) {
            1nat
        } else {
            0nat
        }),
{
    assert(seq![e].skip(1) =~= Seq::<Event>::empty());
    assert(seq![e][0] == e);
    assert(enter_count(Seq::<Event>::empty(), id) == 0);
}

/// One run-slice gives exactly one turn, and only to its own fiber.
proof fn lemma_enter_count_slice(oid: u64, prog: Seq<FiberOp>, id: u64)
    ensures
        enter_count(slice_trace(oid, prog), id) == (if oid == id {
            1nat
        } else {
            0nat
        }),
{
    let enter = seq![Event::Enter(oid)];
    let exit = seq![Event::Exit(oid, slice_finishes(prog))];
    let outs = slice_outputs(oid, prog);
    lemma_enter_count_add(enter + outs, exit, id);
    lemma_enter_count_add(enter, outs, id);
    lemma_enter_count_outputs(oid, prog, id);
    lemma_enter_count_singleton(Event::Enter(oid), id);
    lemma_enter_count_singleton(Event::Exit(oid, slice_finishes(prog)), id);
    assert(slice_trace(oid, prog) == (enter + outs) + exit);
}

/// A fiber that was never registered never gets a turn.
proof fn lemma_absent_fiber_never_enters(q: Seq<Slot>, id: u64)
    requires
        !has_id(q, id),
    ensures
        enter_count(sched(q), id) == 0,
    decreases total_ops(q) + q.len(),
{
    if q.len() != 0 {
        let id0 = q[0].0;
        let prog = q[0].1;
        lemma_first_yield_bounds(prog);
        lemma_enter_count_slice(id0, prog, id);
        if slice_finishes(prog) {
            let q2 = q.skip(1);
            assert(forall|i: int| 0 <= i < q2.len() ==> (#[trigger] q2[i]) == q[i + 1]);
            lemma_enter_count_add(slice_trace(id0, prog), sched(q2), id);
            lemma_absent_fiber_never_enters(q2, id);
        } else {
            let slot = (id0, rest_after(prog));
            let q2 = q.skip(1).push(slot);
            lemma_total_ops_push(q.skip(1), slot);
            assert(forall|i: int|
                0 <= i < q.skip(1).len() ==> (#[trigger] q.skip(1)[i]) == q[i + 1]);
            lemma_enter_count_add(slice_trace(id0, prog), sched(q2), id);
            lemma_absent_fiber_never_enters(q2, id);
        }
    }
}

/// A run-slice that finishes its fiber had no yield left to stop at.
proof fn lemma_finishing_slice_has_no_yield(prog: Seq<FiberOp>)
    requires
        slice_finishes(prog),
    ensures
        yields_in(prog) == 0,
    decreases prog.len(),
{
    if prog.len() != 0 {
        lemma_first_yield_bounds(prog);
        assert(!(prog[0] is Yield));
        lemma_finishing_slice_has_no_yield(prog.skip(1));
    }
}

/// Round-robin fairness, fiber by fiber: however the other fibers behave, a
/// registered fiber that yields `k` times before it returns is given exactly
/// `k + 1` run-slices over the whole run — one per round it is suspended in,
/// plus the slice on which it finishes. No fiber is starved of a turn and
/// none is given a second turn in place of another's first.
pub proof fn lemma_turns_match_yields(q: Seq<Slot>, i: int)
    requires
        distinct_ids(q),
        0 <= i < q.len(),
    ensures
        enter_count(sched(q), q[i].0) == yields_in(q[i].1) + 1,
    decreases total_ops(q) + q.len(),
{
    let id = q[i].0;
    let id0 = q[0].0;
    let prog = q[0].1;
    lemma_first_yield_bounds(prog);
    lemma_enter_count_slice(id0, prog, id);
    if slice_finishes(prog) {
        let q2 = q.skip(1);
        assert(forall|j: int| 0 <= j < q2.len() ==> (#[trigger] q2[j]) == q[j + 1]);
        lemma_enter_count_add(slice_trace(id0, prog), sched(q2), id);
        if i == 0 {
            lemma_finishing_slice_has_no_yield(prog);
            assert(!has_id(q2, id));
            lemma_absent_fiber_never_enters(q2, id);
        } else {
            lemma_turns_match_yields(q2, i - 1);
        }
    } else {
        assert(yields_in(prog) != 0) by {
            if yields_in(prog) == 0 {
                lemma_no_yield_finishes(prog);
            }
        }
        lemma_yields_after_slice(prog);
        let slot = (id0, rest_after(prog));
        let q2 = q.skip(1).push(slot);
        lemma_total_ops_push(q.skip(1), slot);
        assert(forall|j: int| 0 <= j < q.skip(1).len() ==> (#[trigger] q.skip(1)[j]) == q[j + 1]);
        lemma_enter_count_add(slice_trace(id0, prog), sched(q2), id);
        assert(distinct_ids(q2)) by {
            assert forall|a: int, b: int| 0 <= a < b < q2.len() implies q2[a].0 != q2[b].0 by {
                if b == q2.len() - 1 {
                    assert(q2[a] == q[a + 1]);
                }
            }
        }
        if i == 0 {
            lemma_turns_match_yields(q2, q2.len() - 1);
        } else {
            lemma_turns_match_yields(q2, i - 1);
        }
    }
}

/// Interleaving determinism: the trace of a run is a function of the
/// registered programs alone, so a fixed yield pattern per fiber reproduces
/// exactly the same ordered sequence of enter, output and exit events on
/// every run.
pub proof fn lemma_schedule_deterministic(a: Seq<Slot>, b: Seq<Slot>)
    requires
        a == b,
    ensures
        sched(a) == sched(b),
{
}

/// A run over an empty queue records no event at all: registering zero
/// fibers and running returns immediately, without a single switch.
pub proof fn lemma_empty_schedule()
    ensures
        sched(Seq::<Slot>::empty()) == Seq::<Event>::empty(),
{
}

} // verus!
