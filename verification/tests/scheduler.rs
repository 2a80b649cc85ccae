use fibers::executor::Executor;
use fibers::fiber::Event;
use fibers::fiber::FiberOp;

fn emit(v: u64) -> FiberOp {
    FiberOp::Emit(v)
}

fn yld() -> FiberOp {
    FiberOp::Yield
}

#[test]
fn empty_run_returns_immediately() {
    let mut ex = Executor::new();
    ex.run();
    assert_eq!(ex.trace_events().len(), 0);
    assert_eq!(ex.outputs(), Vec::<u64>::new());
    assert_eq!(ex.allocated_stacks(), 0);
}

#[test]
fn two_fibers_round_robin_output() {
    // F1 = "print 1; yield; print 2", F2 = "print A; yield; print B"
    // (A and B written as 10 and 11): round-robin across one yield each
    // must interleave the outputs as 1, A, 2, B.
    let mut ex = Executor::new();
    ex.enqueue(vec![emit(1), yld(), emit(2)]);
    ex.enqueue(vec![emit(10), yld(), emit(11)]);
    ex.run();
    assert_eq!(ex.outputs(), vec![1, 10, 2, 11]);
}

#[test]
fn two_fibers_round_robin_trace() {
    let mut ex = Executor::new();
    let f1 = ex.enqueue(vec![emit(1), yld(), emit(2)]);
    let f2 = ex.enqueue(vec![emit(10), yld(), emit(11)]);
    assert_eq!(f1, 0);
    assert_eq!(f2, 1);
    ex.run();
    let expected = vec![
        Event::Enter(0),
        Event::Output(0, 1),
        Event::Exit(0, false),
        Event::Enter(1),
        Event::Output(1, 10),
        Event::Exit(1, false),
        Event::Enter(0),
        Event::Output(0, 2),
        Event::Exit(0, true),
        Event::Enter(1),
        Event::Output(1, 11),
        Event::Exit(1, true),
    ];
    assert_eq!(ex.trace_events(), &expected);
}

fn enters(trace: &[Event]) -> Vec<u64> {
    let mut ids = Vec::new();
    for e in trace {
        if let Event::Enter(id) = e {
            ids.push(*id);
        }
    }
    ids
}

fn finishes(trace: &[Event]) -> Vec<u64> {
    let mut ids = Vec::new();
    for e in trace {
        if let Event::Exit(id, true) = e {
            ids.push(*id);
        }
    }
    ids
}

#[test]
fn long_and_short_finish_order() {
    // A fiber that yields twice and one that yields once, registered in
    // order F_long, F_short. Under strict FIFO round-robin the dispatches
    // are: long, short, long, short (finishes, on its second slice),
    // long (finishes, on its third slice). F_short finishes first.
    let mut ex = Executor::new();
    let long = ex.enqueue(vec![emit(100), yld(), emit(101), yld(), emit(102)]);
    let short = ex.enqueue(vec![emit(200), yld(), emit(201)]);
    ex.run();
    let trace = ex.trace_events();
    assert_eq!(enters(trace), vec![long, short, long, short, long]);
    assert_eq!(finishes(trace), vec![short, long]);
    assert_eq!(ex.outputs(), vec![100, 200, 101, 201, 102]);
}

#[test]
fn fifo_first_round_registration_order() {
    let mut ex = Executor::new();
    let a = ex.enqueue(vec![yld(), yld(), emit(1)]);
    let b = ex.enqueue(vec![emit(2)]);
    let c = ex.enqueue(vec![yld(), emit(3)]);
    ex.run();
    let ids = enters(ex.trace_events());
    assert_eq!(&ids[..3], &[a, b, c]);
}

#[test]
fn deterministic_interleaving() {
    let programs = vec![
        vec![emit(1), yld(), yld(), emit(2)],
        vec![yld(), emit(3), emit(4), yld()],
        vec![emit(5)],
    ];
    let mut first = Executor::new();
    for p in &programs {
        first.enqueue(p.clone());
    }
    first.run();
    let mut second = Executor::new();
    for p in &programs {
        second.enqueue(p.clone());
    }
    second.run();
    assert_eq!(first.trace_events(), second.trace_events());
}

#[test]
fn each_fiber_completes_exactly_once() {
    // Three fibers that each yield exactly twice and then return.
    let mut ex = Executor::new();
    for v in 0..3u64 {
        ex.enqueue(vec![emit(v), yld(), emit(v), yld(), emit(v)]);
    }
    ex.run();
    let fins = finishes(ex.trace_events());
    for id in 0..3u64 {
        assert_eq!(fins.iter().filter(|f| **f == id).count(), 1);
    }
    // Each round gives every fiber one turn before any fiber's next turn.
    assert_eq!(enters(ex.trace_events()), vec![0, 1, 2, 0, 1, 2, 0, 1, 2]);
}

#[test]
fn turns_match_yields() {
    // However the others behave, a fiber that yields k times gets exactly
    // k + 1 run-slices.
    let mut ex = Executor::new();
    let a = ex.enqueue(vec![yld(), yld(), yld()]); // 3 yields
    let b = ex.enqueue(vec![emit(1)]); // 0 yields
    let c = ex.enqueue(vec![emit(2), yld(), emit(3)]); // 1 yield
    ex.run();
    let ids = enters(ex.trace_events());
    assert_eq!(ids.iter().filter(|i| **i == a).count(), 4);
    assert_eq!(ids.iter().filter(|i| **i == b).count(), 1);
    assert_eq!(ids.iter().filter(|i| **i == c).count(), 2);
}

#[test]
fn stacks_reclaimed_after_run() {
    let mut ex = Executor::new();
    ex.enqueue(vec![emit(1), yld()]);
    ex.enqueue(vec![yld(), yld()]);
    ex.enqueue(vec![]);
    assert_eq!(ex.allocated_stacks(), 3);
    ex.run();
    assert_eq!(ex.allocated_stacks(), 0);
}

#[test]
fn fiber_with_empty_program_finishes_at_once() {
    let mut ex = Executor::new();
    let id = ex.enqueue(vec![]);
    ex.run();
    assert_eq!(
        ex.trace_events(),
        &vec![Event::Enter(id), Event::Exit(id, true)]
    );
}
