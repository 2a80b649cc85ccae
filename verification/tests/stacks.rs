use fibers::executor::Executor;
use fibers::fiber::FiberOp;
use fibers::stack::Stack;
use fibers::stack::DEFAULT_STACK_SIZE;
use fibers::stack::MAX_STACK_SIZE;
use fibers::stack::MIN_STACK_SIZE;

#[test]
fn init_rejects_out_of_bounds_sizes() {
    assert!(Stack::init(0).is_none());
    assert!(Stack::init(MIN_STACK_SIZE - 1).is_none());
    assert!(Stack::init(MAX_STACK_SIZE + 1).is_none());
    assert!(Stack::init(MIN_STACK_SIZE).is_some());
    assert!(Stack::init(MAX_STACK_SIZE).is_some());
}

#[test]
fn init_aligns_the_stack_top() {
    // 1000 = 62 * 16 + 8: eight bytes are trimmed to align the boundary.
    let s = Stack::init(1000).unwrap();
    assert!(s.is_allocated());
    assert_eq!(s.size_bytes(), 1000);
    assert_eq!(s.align, 8);
    assert_eq!(s.bottom, 992);
    assert_eq!(s.top, 992);
    assert_eq!(s.bottom % 16, 0);
}

#[test]
fn init_default_size_is_already_aligned() {
    let s = Stack::init(DEFAULT_STACK_SIZE).unwrap();
    assert_eq!(s.align, 0);
    assert_eq!(s.bottom, DEFAULT_STACK_SIZE);
    assert_eq!(s.top, DEFAULT_STACK_SIZE);
}

#[test]
fn home_context_owns_no_stack() {
    let s = Stack::default();
    assert!(!s.is_allocated());
    assert_eq!(s.size_bytes(), 0);
}

#[test]
fn enqueue_with_bad_stack_size_leaves_queue_unchanged() {
    let mut ex = Executor::new();
    ex.enqueue(vec![FiberOp::Emit(7)]);
    let r = ex.enqueue_with_stack(vec![FiberOp::Emit(8)], 1);
    assert!(r.is_none());
    assert_eq!(ex.allocated_stacks(), 1);
    ex.run();
    assert_eq!(ex.outputs(), vec![7]);
}

#[test]
fn enqueue_with_custom_stack_size() {
    let mut ex = Executor::new();
    let id = ex.enqueue_with_stack(vec![FiberOp::Emit(9)], 4096).unwrap();
    assert_eq!(id, 0);
    ex.run();
    assert_eq!(ex.outputs(), vec![9]);
}
