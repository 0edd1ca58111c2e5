use diskcache_rs::batcher::{BatcherState, WriteBatcher, WriteOp};
use diskcache_rs::layout::WriteMode;

fn write(path: &str, byte: u8) -> WriteOp {
    WriteOp::Write { path: path.to_string(), data: vec![byte], mode: WriteMode::Direct }
}

fn delete(path: &str) -> WriteOp {
    WriteOp::Delete { path: path.to_string() }
}

fn show(ops: &[WriteOp]) -> Vec<String> {
    ops.iter()
        .map(|op| match op {
            WriteOp::Write { path, data, .. } => format!("W {} {:?}", path, data),
            WriteOp::Delete { path } => format!("D {}", path),
            WriteOp::Sync => "S".to_string(),
        })
        .collect()
}

#[test]
fn a_new_batcher_runs_and_is_empty() {
    let mut b = WriteBatcher::new(3);
    assert_eq!(b.state(), BatcherState::Running);
    assert_eq!(b.pending_len(), 0);
    assert!(!b.is_full(1));
    assert!(b.is_full(0));
    assert!(b.step().is_empty());
    assert!(b.flush_idle().is_empty());
}

#[test]
fn writes_are_collected_up_to_the_batch_size() {
    let mut b = WriteBatcher::new(3);
    assert!(b.enqueue(write("a", 1)));
    assert!(b.enqueue(write("b", 2)));
    assert!(b.enqueue(write("c", 3)));
    assert!(b.enqueue(write("d", 4)));
    assert_eq!(b.pending_len(), 4);
    assert!(b.is_full(4));
    assert!(!b.is_full(5));
    assert!(b.step().is_empty());
    assert!(b.step().is_empty());
    assert_eq!(show(&b.step()), vec!["W a [1]", "W b [2]", "W c [3]"]);
    assert!(b.step().is_empty());
    assert_eq!(b.pending_len(), 0);
    assert_eq!(show(&b.flush_idle()), vec!["W d [4]"]);
    assert!(b.flush_idle().is_empty());
}

#[test]
fn a_delete_is_handed_out_when_it_is_reached() {
    let mut b = WriteBatcher::new(10);
    b.enqueue(write("a", 1));
    b.enqueue(delete("a"));
    b.enqueue(write("a", 2));
    assert!(b.step().is_empty());
    // the write that came before the delete leaves before it
    assert_eq!(show(&b.step()), vec!["W a [1]", "D a"]);
    assert!(b.step().is_empty());
    assert_eq!(show(&b.flush_idle()), vec!["W a [2]"]);
}

#[test]
fn a_barrier_hands_out_what_was_collected() {
    let mut b = WriteBatcher::new(10);
    b.enqueue(write("a", 1));
    b.enqueue(write("b", 2));
    b.enqueue(WriteOp::Sync);
    b.enqueue(write("c", 3));
    assert!(b.step().is_empty());
    assert!(b.step().is_empty());
    assert_eq!(show(&b.step()), vec!["W a [1]", "W b [2]", "S"]);
    assert!(b.step().is_empty());
    assert_eq!(show(&b.flush_idle()), vec!["W c [3]"]);
}

#[test]
fn drain_works_the_queue_off() {
    let mut b = WriteBatcher::new(2);
    b.enqueue(write("a", 1));
    b.enqueue(delete("x"));
    b.enqueue(write("b", 2));
    b.enqueue(write("c", 3));
    assert_eq!(show(&b.drain()), vec!["W a [1]", "D x", "W b [2]", "W c [3]"]);
    assert_eq!(b.pending_len(), 0);
    assert!(b.flush_idle().is_empty());
}

#[test]
fn drain_keeps_what_is_short_of_a_batch() {
    let mut b = WriteBatcher::new(2);
    b.enqueue(write("a", 1));
    b.enqueue(write("b", 2));
    b.enqueue(write("c", 3));
    assert_eq!(show(&b.drain()), vec!["W a [1]", "W b [2]"]);
    assert_eq!(b.pending_len(), 0);
    assert_eq!(show(&b.flush_idle()), vec!["W c [3]"]);
}

#[test]
fn a_write_then_a_delete_leave_in_that_order() {
    let mut b = WriteBatcher::new(100);
    b.enqueue(write("a", 1));
    b.enqueue(delete("a"));
    assert_eq!(show(&b.sync()), vec!["W a [1]", "D a", "S"]);
    let mut c = WriteBatcher::new(100);
    c.enqueue(delete("a"));
    c.enqueue(write("a", 1));
    assert_eq!(show(&c.sync()), vec!["D a", "W a [1]", "S"]);
}

#[test]
fn sync_leaves_nothing_behind() {
    let mut b = WriteBatcher::new(100);
    b.enqueue(write("a", 1));
    b.enqueue(write("b", 2));
    b.enqueue(delete("a"));
    assert_eq!(show(&b.sync()), vec!["W a [1]", "W b [2]", "D a", "S"]);
    assert_eq!(b.pending_len(), 0);
    assert!(b.flush_idle().is_empty());
    assert_eq!(show(&b.sync()), vec!["S"]);
    assert_eq!(b.state(), BatcherState::Running);
}

#[test]
fn a_batch_size_of_one_hands_out_every_write_at_once() {
    let mut b = WriteBatcher::new(1);
    b.enqueue(write("a", 1));
    assert_eq!(show(&b.step()), vec!["W a [1]"]);
    let mut z = WriteBatcher::new(0);
    z.enqueue(write("a", 1));
    assert_eq!(show(&z.step()), vec!["W a [1]"]);
}

#[test]
fn shutdown_drains_and_stops() {
    let mut b = WriteBatcher::new(10);
    b.enqueue(write("a", 1));
    b.enqueue(write("b", 2));
    b.shutdown();
    assert_eq!(b.state(), BatcherState::Draining);
    // nothing is taken any more
    assert!(!b.enqueue(write("c", 3)));
    assert_eq!(b.pending_len(), 2);
    assert!(b.step().is_empty());
    assert!(b.step().is_empty());
    assert_eq!(b.state(), BatcherState::Draining);
    // the queue is empty: the last writes are handed out and the batcher stops
    assert_eq!(show(&b.step()), vec!["W a [1]", "W b [2]"]);
    assert_eq!(b.state(), BatcherState::Stopped);
    assert!(b.step().is_empty());
    assert!(!b.enqueue(delete("a")));
    b.shutdown();
    assert_eq!(b.state(), BatcherState::Stopped);
    assert!(b.sync().is_empty());
}
