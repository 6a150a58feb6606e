use pong_rollback::input::BoxInput;
use pong_rollback::queue::{Arrival, InputQueue, REORDER_WINDOW};

fn rec(v: i64) -> BoxInput {
    BoxInput { inp: v, inp2: -v }
}

#[test]
fn empty_queue_predicts_zero() {
    let q = InputQueue::new();
    assert_eq!(q.len(), 0);
    assert!(!q.knows(0));
    assert_eq!(q.input_at(0), BoxInput { inp: 0, inp2: 0 });
    assert_eq!(q.input_at(17), BoxInput { inp: 0, inp2: 0 });
}

#[test]
fn queue_gives_real_input_where_known_and_last_input_after() {
    let mut q = InputQueue::new();
    for v in 0..5 {
        q.push(rec(v));
    }
    assert_eq!(q.len(), 5);
    for f in 0..5 {
        assert!(q.knows(f));
        assert_eq!(q.input_at(f), rec(f as i64));
    }
    assert!(!q.knows(5));
    assert!(!q.knows(-1));
    assert_eq!(q.input_at(5), rec(4));
    assert_eq!(q.input_at(1000), rec(4));
}

#[test]
fn discarding_keeps_what_is_known() {
    let mut q = InputQueue::new();
    for v in 0..10 {
        q.push(rec(v));
    }
    q.discard_before(4);
    assert_eq!(q.len(), 10);
    for f in 4..10 {
        assert_eq!(q.input_at(f), rec(f as i64));
    }
    q.discard_before(2);
    assert_eq!(q.input_at(4), rec(4));
    q.discard_before(100);
    assert_eq!(q.len(), 10);
    assert_eq!(q.input_at(10), rec(9));
    q.push(rec(10));
    assert_eq!(q.len(), 11);
    assert_eq!(q.input_at(10), rec(10));
    assert_eq!(q.input_at(11), rec(10));
}

#[test]
fn arrivals_are_put_in_the_order_of_their_ticks() {
    let mut q = InputQueue::new();
    assert_eq!(REORDER_WINDOW, 128);
    assert_eq!(q.would_take(0), Arrival::Taken);
    assert_eq!(q.would_take(1), Arrival::Held);
    assert_eq!(q.would_take(127), Arrival::Held);
    assert_eq!(q.would_take(128), Arrival::Dropped);
    assert_eq!(q.would_take(-1), Arrival::Dropped);
    assert_eq!(q.receive(3, rec(3)), Arrival::Held);
    assert_eq!(q.receive(1, rec(1)), Arrival::Held);
    assert_eq!(q.would_take(1), Arrival::Dropped);
    assert_eq!(q.len(), 0);
    assert_eq!(q.input_at(1), BoxInput { inp: 0, inp2: 0 });
    assert_eq!(q.receive(0, rec(0)), Arrival::Taken);
    // tick 1 came in with tick 0; tick 3 still waits for tick 2
    assert_eq!(q.len(), 2);
    assert_eq!(q.input_at(1), rec(1));
    assert_eq!(q.input_at(3), rec(1));
    assert_eq!(q.would_take(3), Arrival::Dropped);
    assert_eq!(q.would_take(0), Arrival::Dropped);
    assert_eq!(q.receive(2, rec(2)), Arrival::Taken);
    assert_eq!(q.len(), 4);
    for f in 0..4 {
        assert_eq!(q.input_at(f), rec(f as i64));
    }
    assert_eq!(q.receive(i32::MAX, rec(9)), Arrival::Dropped);
}
