//! The write batcher: a queue of file operations, worked off in order.
//!
//! Writes are buffered and handed out together once enough have come in,
//! at a barrier, at a delete, or when the queue has been idle. A delete
//! is handed out when it is reached, behind the buffered writes that came
//! before it. The caller carries out what is handed out, in the order in
//! which it is handed out: that is the order in which the operations were
//! queued.

use vstd::prelude::*;
use crate::layout::WriteMode;

verus! {

/// A file operation, as plain values.
pub enum WriteOpView {
    Write { path: Seq<char>, data: Seq<u8>, mode: WriteMode },
    Delete { path: Seq<char> },
    Sync,
}

/// A file operation.
#[derive(Debug)]
pub enum WriteOp {
    /// Replace the file's contents.
    Write { path: String, data: Vec<u8>, mode: WriteMode },
    /// Remove the file.
    Delete { path: String },
    /// A barrier: everything queued before it has been handed out once it
    /// is handed out.
    Sync,
}

impl View for WriteOp {
    type V = WriteOpView;

    open spec fn view(&self) -> WriteOpView {
        match self {
            WriteOp::Write { path, data, mode } => WriteOpView::Write {
                path: path@,
                data: data@,
                mode: *mode,
            },
            WriteOp::Delete { path } => WriteOpView::Delete { path: path@ },
            WriteOp::Sync => WriteOpView::Sync,
        }
    }
}

/// The views of a list of operations.
pub open spec fn ops_view(s: Seq<WriteOp>) -> Seq<WriteOpView> {
    Seq::new(s.len(), |i: int| s[i]@)
}

/// The stages of a batcher's life.
#[derive(Debug, Clone, Copy, PartialEq, Eq, Structural)]
pub enum BatcherState {
    /// Takes operations.
    Running,
    /// Takes no more, works off what is queued.
    Draining,
    /// Done: nothing queued, nothing buffered.
    Stopped,
}

/// A batcher as plain values.
pub struct BatcherView {
    pub pending: Seq<WriteOpView>,
    pub buffered: Seq<WriteOpView>,
    pub state: BatcherState,
    pub batch_size: nat,
}

/// What one step hands out.
pub open spec fn step_out(b: BatcherView) -> Seq<WriteOpView> {
    if b.pending.len() == 0 {
        if b.state == BatcherState::Draining {
            b.buffered
        } else {
            Seq::empty()
        }
    } else {
        match b.pending[0] {
            WriteOpView::Write { .. } => if b.buffered.len() + 1 >= b.batch_size {
                b.buffered.push(b.pending[0])
            } else {
                Seq::empty()
            },
            WriteOpView::Delete { .. } => b.buffered.push(b.pending[0]),
            WriteOpView::Sync => b.buffered.push(WriteOpView::Sync),
        }
    }
}

/// The batcher after one step.
pub open spec fn step_next(b: BatcherView) -> BatcherView {
    if b.pending.len() == 0 {
        if b.state == BatcherState::Draining {
            BatcherView { buffered: Seq::empty(), state: BatcherState::Stopped, ..b }
        } else {
            b
        }
    } else {
        let rest = b.pending.drop_first();
        match b.pending[0] {
            WriteOpView::Write { .. } => if b.buffered.len() + 1 >= b.batch_size {
                BatcherView { pending: rest, buffered: Seq::empty(), ..b }
            } else {
                BatcherView { pending: rest, buffered: b.buffered.push(b.pending[0]), ..b }
            },
            WriteOpView::Delete { .. } => BatcherView {
                pending: rest,
                buffered: Seq::empty(),
                ..b
            },
            WriteOpView::Sync => BatcherView { pending: rest, buffered: Seq::empty(), ..b },
        }
    }
}

/// What is handed out while the queue is worked off to its end.
pub open spec fn drain_out(b: BatcherView) -> Seq<WriteOpView>
    decreases b.pending.len(),
{
    if b.pending.len() == 0 {
        Seq::empty()
    } else {
        step_out(b) + drain_out(step_next(b))
    }
}

/// The batcher once the queue is worked off to its end.
pub open spec fn drain_next(b: BatcherView) -> BatcherView
    decreases b.pending.len(),
{
    if b.pending.len() == 0 {
        b
    } else {
        drain_next(step_next(b))
    }
}

/// Every operation is a write.
pub open spec fn all_writes(ops: Seq<WriteOpView>) -> bool {
    forall|i: int| 0 <= i < ops.len() ==> #[trigger] ops[i] is Write
}

/// A drain keeps the order of the queue: what it hands out, followed by
/// what it leaves buffered, is what was buffered followed by what was
/// queued. Nothing is lost, nothing is added, nothing overtakes.
pub proof fn lemma_drain_in_order(b: BatcherView)
    ensures
        drain_out(b) + drain_next(b).buffered == b.buffered + b.pending,
        drain_next(b).pending.len() == 0,
        drain_next(b).state == b.state,
        drain_next(b).batch_size == b.batch_size,
        all_writes(b.buffered) ==> all_writes(drain_next(b).buffered),
    decreases b.pending.len(),
{
    if b.pending.len() == 0 {
        assert(drain_out(b) + b.buffered == b.buffered + b.pending);
    } else {
        let head = b.pending[0];
        let rest = b.pending.drop_first();
        let n = step_next(b);
        let out = step_out(b);
        lemma_drain_in_order(n);
        assert(b.pending == seq![head] + rest);
        assert(out + (n.buffered + n.pending) == b.buffered + b.pending);
        assert(drain_out(b) + drain_next(b).buffered == out + (drain_out(n) + drain_next(
            n,
        ).buffered));
        if all_writes(b.buffered) {
            assert(all_writes(n.buffered)) by {
                assert forall|i: int| 0 <= i < n.buffered.len() implies #[trigger] n.buffered[i]
                    is Write by {
                    if i < b.buffered.len() {
                        assert(b.buffered[i] is Write);
                    }
                }
            }
        }
    }
}

/// The write batcher.
pub struct WriteBatcher {
    queue: Vec<WriteOp>,
    batch: Vec<WriteOp>,
    state: BatcherState,
    batch_size: usize,
}

impl View for WriteBatcher {
    type V = BatcherView;

    closed spec fn view(&self) -> BatcherView {
        BatcherView {
            pending: ops_view(self.queue@),
            buffered: ops_view(self.batch@),
            state: self.state,
            batch_size: self.batch_size as nat,
        }
    }
}

impl WriteBatcher {
    /// Only writes are buffered, and a stopped batcher holds nothing.
    pub open spec fn wf(&self) -> bool {
        &&& all_writes(self@.buffered)
        &&& self@.state == BatcherState::Stopped ==> self@.pending.len() == 0
            && self@.buffered.len() == 0
    }

    /// A running batcher with nothing queued.
    pub fn new(batch_size: usize) -> (r: Self)
        ensures
            r.wf(),
            r@.pending == Seq::<WriteOpView>::empty(),
            r@.buffered == Seq::<WriteOpView>::empty(),
            r@.state == BatcherState::Running,
            r@.batch_size == batch_size,
    {
        let r = WriteBatcher {
            queue: Vec::new(),
            batch: Vec::new(),
            state: BatcherState::Running,
            batch_size,
        };
        assert(r@.pending == Seq::<WriteOpView>::empty());
        assert(r@.buffered == Seq::<WriteOpView>::empty());
        r
    }

    pub fn state(&self) -> (r: BatcherState)
        ensures
            r == self@.state,
    {
        self.state
    }

    /// How many operations wait in the queue.
    pub fn pending_len(&self) -> (r: usize)
        ensures
            r == self@.pending.len(),
    {
        self.queue.len()
    }

    /// Whether a barrier waits in the queue.
    pub fn barrier_waits(&self) -> (r: bool)
        ensures
            r == self@.pending.contains(WriteOpView::Sync),
    {
        let mut i: usize = 0;
        while i < self.queue.len()
            invariant
                i <= self.queue.len(),
                forall|j: int| 0 <= j < i ==> self@.pending[j] != WriteOpView::Sync,
            decreases self.queue.len() - i,
        {
            match &self.queue[i] {
                WriteOp::Sync => {
                    assert(self@.pending[i as int] == WriteOpView::Sync);
                    return true;
                },
                _ => {},
            }
            i = i + 1;
        }
        false
    }

    /// Whether the queue holds `capacity` operations or more, so that a
    /// submitter has to wait.
    pub fn is_full(&self, capacity: usize) -> (r: bool)
        ensures
            r == (self@.pending.len() >= capacity),
    {
        self.queue.len() >= capacity
    }

    /// Queues an operation behind those that wait. Only a running batcher
    /// takes it.
    pub fn enqueue(&mut self, op: WriteOp) -> (accepted: bool)
        requires
            old(self).wf(),
        ensures
            final(self).wf(),
            accepted == (old(self)@.state == BatcherState::Running),
            final(self)@ == if accepted {
                BatcherView { pending: old(self)@.pending.push(op@), ..old(self)@ }
            } else {
                old(self)@
            },
    {
        match self.state {
            BatcherState::Running => {
                let ghost before = ops_view(self.queue@);
                let ghost v = op@;
                self.queue.push(op);
                assert(ops_view(self.queue@) == before.push(v));
                true
            },
            _ => false,
        }
    }

    /// Hands out everything that is buffered.
    fn take_batch(&mut self) -> (out: Vec<WriteOp>)
        ensures
            ops_view(out@) == old(self)@.buffered,
            final(self)@ == (BatcherView { buffered: Seq::empty(), ..old(self)@ }),
    {
        let mut out: Vec<WriteOp> = Vec::new();
        std::mem::swap(&mut out, &mut self.batch);
        assert(ops_view(self.batch@) == Seq::<WriteOpView>::empty());
        out
    }

    /// Works off the operation at the head of the queue and hands out
    /// what the caller has to carry out now: nothing for a write that is
    /// only buffered; the buffered writes and the head itself for a write
    /// that fills the batch, for a delete and for a barrier. With an
    /// empty queue a draining batcher hands out what is buffered and
    /// stops.
    pub fn step(&mut self) -> (out: Vec<WriteOp>)
        requires
            old(self).wf(),
        ensures
            final(self).wf(),
            ops_view(out@) == step_out(old(self)@),
            final(self)@ == step_next(old(self)@),
    {
        if self.queue.len() == 0 {
            match self.state {
                BatcherState::Draining => {
                    let out = self.take_batch();
                    self.state = BatcherState::Stopped;
                    return out;
                },
                _ => {
                    let out: Vec<WriteOp> = Vec::new();
                    assert(ops_view(out@) == Seq::<WriteOpView>::empty());
                    return out;
                },
            }
        }
        let ghost before = self@;
        let op = self.queue.remove(0);
        assert(ops_view(self.queue@) == before.pending.drop_first());
        assert(op@ == before.pending[0]);
        match op {
            WriteOp::Write { path, data, mode } => {
                let ghost v = before.pending[0];
                let ghost buf = ops_view(self.batch@);
                self.batch.push(WriteOp::Write { path, data, mode });
                assert(ops_view(self.batch@) == buf.push(v));
                assert(all_writes(ops_view(self.batch@))) by {
                    assert forall|i: int| 0 <= i < self.batch@.len() implies #[trigger] ops_view(
                        self.batch@,
                    )[i] is Write by {
                        if i < buf.len() {
                            assert(buf[i] is Write);
                        }
                    }
                }
                if self.batch.len() >= self.batch_size {
                    self.take_batch()
                } else {
                    let out: Vec<WriteOp> = Vec::new();
                    assert(ops_view(out@) == Seq::<WriteOpView>::empty());
                    out
                }
            },
            WriteOp::Delete { path } => {
                let mut out = self.take_batch();
                let ghost buf = ops_view(out@);
                out.push(WriteOp::Delete { path });
                assert(ops_view(out@) == buf.push(before.pending[0]));
                out
            },
            WriteOp::Sync => {
                let mut out = self.take_batch();
                let ghost buf = ops_view(out@);
                out.push(WriteOp::Sync);
                assert(ops_view(out@) == buf.push(WriteOpView::Sync));
                out
            },
        }
    }

    /// Hands out what is buffered, as after an idle period.
    pub fn flush_idle(&mut self) -> (out: Vec<WriteOp>)
        requires
            old(self).wf(),
        ensures
            final(self).wf(),
            ops_view(out@) == old(self)@.buffered,
            final(self)@ == (BatcherView { buffered: Seq::empty(), ..old(self)@ }),
    {
        self.take_batch()
    }

    /// Works the queue off to its end and hands out everything that the
    /// steps hand out, in their order. What is handed out and what stays
    /// buffered are, one after the other, what was buffered and queued.
    pub fn drain(&mut self) -> (out: Vec<WriteOp>)
        requires
            old(self).wf(),
        ensures
            final(self).wf(),
            ops_view(out@) == drain_out(old(self)@),
            final(self)@ == drain_next(old(self)@),
            final(self)@.pending.len() == 0,
            ops_view(out@) + final(self)@.buffered == old(self)@.buffered + old(self)@.pending,
    {
        proof {
            lemma_drain_in_order(old(self)@);
        }
        let mut out: Vec<WriteOp> = Vec::new();
        assert(ops_view(out@) == Seq::<WriteOpView>::empty());
        assert(ops_view(out@) + drain_out(self@) == drain_out(old(self)@));
        while self.queue.len() > 0
            invariant
                self.wf(),
                ops_view(out@) + drain_out(self@) == drain_out(old(self)@),
                drain_next(self@) == drain_next(old(self)@),
            decreases self.queue.len(),
        {
            let ghost before = self@;
            let ghost sofar = ops_view(out@);
            let mut more = self.step();
            let ghost added = ops_view(more@);
            out.append(&mut more);
            assert(ops_view(out@) == sofar + added);
            assert((sofar + added) + drain_out(self@) == sofar + (added + drain_out(self@)));
        }
        assert(drain_out(self@) == Seq::<WriteOpView>::empty());
        assert(ops_view(out@) + Seq::<WriteOpView>::empty() == ops_view(out@));
        out
    }

    /// A barrier: queues a `Sync` and works the queue off. When this
    /// returns, nothing is queued or buffered any more, and the caller
    /// holds every operation that was, in the order in which they were
    /// queued, with the barrier last. A batcher that no longer runs takes
    /// no barrier and only works off its queue.
    pub fn sync(&mut self) -> (out: Vec<WriteOp>)
        requires
            old(self).wf(),
        ensures
            final(self).wf(),
            final(self)@.pending.len() == 0,
            final(self)@.state == old(self)@.state,
            final(self)@.batch_size == old(self)@.batch_size,
            old(self)@.state == BatcherState::Running ==> {
                &&& final(self)@.buffered.len() == 0
                &&& ops_view(out@) == (old(self)@.buffered + old(self)@.pending).push(
                    WriteOpView::Sync,
                )
            },
            old(self)@.state != BatcherState::Running ==> {
                &&& ops_view(out@) == drain_out(old(self)@)
                &&& final(self)@ == drain_next(old(self)@)
            },
    {
        let accepted = self.enqueue(WriteOp::Sync);
        proof {
            lemma_drain_in_order(self@);
            if accepted {
                lemma_sync_empties(self@);
                let done = drain_next(self@).buffered;
                assert(done == Seq::<WriteOpView>::empty());
                assert(drain_out(self@) + done == drain_out(self@));
                assert(self@.buffered + self@.pending == (old(self)@.buffered + old(
                    self,
                )@.pending).push(WriteOpView::Sync));
            }
        }
        self.drain()
    }

    /// Stops taking operations. What is queued is still worked off.
    pub fn shutdown(&mut self)
        requires
            old(self).wf(),
        ensures
            final(self).wf(),
            final(self)@ == (BatcherView {
                state: if old(self)@.state == BatcherState::Running {
                    BatcherState::Draining
                } else {
                    old(self)@.state
                },
                ..old(self)@
            }),
    {
        match self.state {
            BatcherState::Running => {
                self.state = BatcherState::Draining;
            },
            _ => {},
        }
    }
}

/// A queue that ends in a barrier leaves nothing buffered.
pub proof fn lemma_sync_empties(b: BatcherView)
    requires
        b.pending.len() > 0,
        b.pending.last() is Sync,
    ensures
        drain_next(b).buffered.len() == 0,
    decreases b.pending.len(),
{
    let n = step_next(b);
    if b.pending.len() == 1 {
        assert(b.pending[0] == b.pending.last());
        assert(n.pending.len() == 0);
        assert(drain_next(n) == n);
    } else {
        assert(n.pending == b.pending.drop_first());
        assert(n.pending.last() == b.pending.last());
        lemma_sync_empties(n);
    }
}

/// The files on disk once the operations were carried out in their
/// order.
pub open spec fn carried_out(
    disk: Map<Seq<char>, Seq<u8>>,
    ops: Seq<WriteOpView>,
) -> Map<Seq<char>, Seq<u8>>
    decreases ops.len(),
{
    if ops.len() == 0 {
        disk
    } else {
        let before = carried_out(disk, ops.drop_last());
        match ops.last() {
            WriteOpView::Write { path, data, .. } => before.insert(path, data),
            WriteOpView::Delete { path } => before.remove(path),
            WriteOpView::Sync => before,
        }
    }
}

/// The operation writes or removes the file at `path`.
pub open spec fn touches(op: WriteOpView, path: Seq<char>) -> bool {
    match op {
        WriteOpView::Write { path: p, .. } => p == path,
        WriteOpView::Delete { path: p } => p == path,
        WriteOpView::Sync => false,
    }
}

/// The operation writes `data` to the file at `path`.
pub open spec fn is_write_of(op: WriteOpView, path: Seq<char>, data: Seq<u8>) -> bool {
    op matches WriteOpView::Write { path: p, data: d, .. } && p == path && d == data
}

/// The last of the operations that touches the file at `path` writes
/// `data` to it.
pub open spec fn writes_last(ops: Seq<WriteOpView>, path: Seq<char>, data: Seq<u8>) -> bool {
    exists|i: int|
        0 <= i < ops.len() && is_write_of(#[trigger] ops[i], path, data) && forall|j: int|
            i < j < ops.len() ==> !touches(#[trigger] ops[j], path)
}

/// The last of the operations that touches the file at `path` removes
/// it.
pub open spec fn removes_last(ops: Seq<WriteOpView>, path: Seq<char>) -> bool {
    exists|i: int|
        0 <= i < ops.len() && (#[trigger] ops[i]) == (WriteOpView::Delete { path })
            && forall|j: int| i < j < ops.len() ==> !touches(#[trigger] ops[j], path)
}

/// Where the last operation on a file is a write, the file holds what it
/// wrote.
pub proof fn lemma_written_last(
    disk: Map<Seq<char>, Seq<u8>>,
    ops: Seq<WriteOpView>,
    path: Seq<char>,
    data: Seq<u8>,
)
    requires
        writes_last(ops, path, data),
    ensures
        carried_out(disk, ops).contains_key(path),
        carried_out(disk, ops)[path] == data,
    decreases ops.len(),
{
    let i = choose|i: int|
        0 <= i < ops.len() && is_write_of(#[trigger] ops[i], path, data) && forall|j: int|
            i < j < ops.len() ==> !touches(#[trigger] ops[j], path);
    if i == ops.len() - 1 {
    } else {
        let rest = ops.drop_last();
        assert(!touches(ops[ops.len() - 1], path));
        assert(writes_last(rest, path, data)) by {
            assert(is_write_of(rest[i], path, data));
            assert forall|j: int| i < j < rest.len() implies !touches(#[trigger] rest[j], path) by {
                assert(rest[j] == ops[j]);
            }
        }
        lemma_written_last(disk, rest, path, data);
    }
}

/// Where the last operation on a file is a delete, the file is gone.
pub proof fn lemma_removed_last(
    disk: Map<Seq<char>, Seq<u8>>,
    ops: Seq<WriteOpView>,
    path: Seq<char>,
)
    requires
        removes_last(ops, path),
    ensures
        !carried_out(disk, ops).contains_key(path),
    decreases ops.len(),
{
    let i = choose|i: int|
        0 <= i < ops.len() && (#[trigger] ops[i]) == (WriteOpView::Delete { path })
            && forall|j: int| i < j < ops.len() ==> !touches(#[trigger] ops[j], path);
    if i == ops.len() - 1 {
    } else {
        let rest = ops.drop_last();
        assert(!touches(ops[ops.len() - 1], path));
        assert(removes_last(rest, path)) by {
            assert(rest[i] == ops[i]);
            assert forall|j: int| i < j < rest.len() implies !touches(#[trigger] rest[j], path) by {
                assert(rest[j] == ops[j]);
            }
        }
        lemma_removed_last(disk, rest, path);
    }
}

/// First in, first out: what a drain hands out and then leaves buffered,
/// carried out in order, leaves the disk as what was buffered and queued
/// would, carried out in the order in which it was queued.
pub proof fn law_drain_is_fifo(b: BatcherView, disk: Map<Seq<char>, Seq<u8>>)
    ensures
        carried_out(disk, drain_out(b) + drain_next(b).buffered) == carried_out(
            disk,
            b.buffered + b.pending,
        ),
{
    lemma_drain_in_order(b);
}

/// A barrier makes durable: once the operations that `sync` hands over
/// were carried out in order, the disk is as the operations that were
/// buffered and queued before the barrier leave it, carried out in the
/// order in which they were queued. For each file the last operation
/// decides: what was written last is there, what was removed last is
/// gone.
pub proof fn law_barrier_makes_durable(b: BatcherView, disk: Map<Seq<char>, Seq<u8>>)
    ensures
        drain_out(BatcherView { pending: b.pending.push(WriteOpView::Sync), ..b }) == (b.buffered
            + b.pending).push(WriteOpView::Sync),
        carried_out(
            disk,
            drain_out(BatcherView { pending: b.pending.push(WriteOpView::Sync), ..b }),
        ) == carried_out(disk, b.buffered + b.pending),
        forall|path: Seq<char>, data: Seq<u8>|
            #[trigger] writes_last(b.buffered + b.pending, path, data) ==> {
                &&& carried_out(disk, b.buffered + b.pending).contains_key(path)
                &&& carried_out(disk, b.buffered + b.pending)[path] == data
            },
        forall|path: Seq<char>|
            #[trigger] removes_last(b.buffered + b.pending, path) ==> !carried_out(
                disk,
                b.buffered + b.pending,
            ).contains_key(path),
{
    let synced = BatcherView { pending: b.pending.push(WriteOpView::Sync), ..b };
    let all = b.buffered + b.pending;
    lemma_drain_in_order(synced);
    lemma_sync_empties(synced);
    let done = drain_next(synced).buffered;
    assert(done == Seq::<WriteOpView>::empty());
    assert(drain_out(synced) + done == drain_out(synced));
    assert(synced.buffered + synced.pending == all.push(WriteOpView::Sync));
    assert(all.push(WriteOpView::Sync).drop_last() == all);
    assert forall|path: Seq<char>, data: Seq<u8>| #[trigger]
        writes_last(all, path, data) implies carried_out(disk, all).contains_key(path)
        && carried_out(disk, all)[path] == data by {
        lemma_written_last(disk, all, path, data);
    }
    assert forall|path: Seq<char>| #[trigger] removes_last(all, path) implies !carried_out(
        disk,
        all,
    ).contains_key(path) by {
        lemma_removed_last(disk, all, path);
    }
}

} // verus!
