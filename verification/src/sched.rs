//! Ready-queue scheduler under a stride-scheduling discipline: `add` appends a
//! runnable task, `fetch` removes and returns the task with the globally
//! minimum stride (ties broken by queue position, first encountered wins) and
//! advances its stride by `BIG_STRIDE / priority`.

use vstd::prelude::*;

use crate::task::TaskControlBlock;

verus! {

/// Stride quantum: each dispatch advances the chosen task's stride by
/// `BIG_STRIDE / priority`, so dispatch frequency is proportional to priority.
pub const BIG_STRIDE: u64 = 65536;

/// Largest stride that still admits one more increment without overflow.
pub const STRIDE_LIMIT: u64 = u64::MAX - BIG_STRIDE;

/// Every queued id denotes a live slot of the task table.
pub open spec fn queue_ok(q: Seq<usize>, tasks: Seq<Option<TaskControlBlock>>) -> bool {
    forall|i: int| 0 <= i < q.len() ==> (#[trigger] q[i]) < tasks.len() && tasks[q[i] as int] is Some
}

/// The stride of a queued task.
pub open spec fn stride_at(tasks: Seq<Option<TaskControlBlock>>, pid: usize) -> u64 {
    tasks[pid as int].unwrap().stride
}

/// The priority of a queued task.
pub open spec fn priority_at(tasks: Seq<Option<TaskControlBlock>>, pid: usize) -> usize {
    tasks[pid as int].unwrap().priority
}

/// Every queued task has a legal priority and room for one more stride bump.
pub open spec fn queue_schedulable(q: Seq<usize>, tasks: Seq<Option<TaskControlBlock>>) -> bool {
    forall|i: int|
        0 <= i < q.len() ==> priority_at(tasks, #[trigger] q[i]) >= 2 && stride_at(tasks, q[i])
            <= STRIDE_LIMIT
}

/// Position of the first queued task whose stride is minimal.
pub open spec fn min_stride_idx(q: Seq<usize>, tasks: Seq<Option<TaskControlBlock>>) -> int
    decreases q.len(),
{
    if q.len() <= 1 {
        0
    } else {
        let r = 1 + min_stride_idx(q.drop_first(), tasks);
        if stride_at(tasks, q[0]) <= stride_at(tasks, q[r]) {
            0
        } else {
            r
        }
    }
}

/// `min_stride_idx` indeed names the first position of minimal stride.
pub proof fn lemma_min_stride_idx(q: Seq<usize>, tasks: Seq<Option<TaskControlBlock>>)
    requires
        q.len() > 0,
    ensures
        0 <= min_stride_idx(q, tasks) < q.len(),
        forall|i: int|
            0 <= i < q.len() ==> stride_at(tasks, q[min_stride_idx(q, tasks)]) <= stride_at(
                tasks,
                #[trigger] q[i],
            ),
        forall|i: int|
            0 <= i < min_stride_idx(q, tasks) ==> stride_at(tasks, #[trigger] q[i]) > stride_at(
                tasks,
                q[min_stride_idx(q, tasks)],
            ),
    decreases q.len(),
{
    if q.len() > 1 {
        lemma_min_stride_idx(q.drop_first(), tasks);
        assert forall|i: int| 1 <= i < q.len() implies q.drop_first()[i - 1] == q[i] by {}
    }
}


/// The chosen position depends only on the strides of the queued tasks.
pub proof fn lemma_min_stride_idx_same(
    q: Seq<usize>,
    t1: Seq<Option<TaskControlBlock>>,
    t2: Seq<Option<TaskControlBlock>>,
)
    requires
        forall|i: int| 0 <= i < q.len() ==> stride_at(t1, #[trigger] q[i]) == stride_at(t2, q[i]),
    ensures
        min_stride_idx(q, t1) == min_stride_idx(q, t2),
    decreases q.len(),
{
    if q.len() > 1 {
        lemma_min_stride_idx_same(q.drop_first(), t1, t2);
        lemma_min_stride_idx(q.drop_first(), t1);
        assert forall|i: int| 1 <= i < q.len() implies q.drop_first()[i - 1] == q[i] by {}
    }
}

/// The control block after one dispatch: the stride advanced by
/// `BIG_STRIDE / priority`, everything else untouched.
pub open spec fn bumped(t: TaskControlBlock) -> TaskControlBlock {
    (TaskControlBlock { stride: (t.stride + BIG_STRIDE / (t.priority as u64)) as u64, ..t })
}

/// The ready queue: an unordered bag of runnable control-block ids, selected
/// from by minimal stride.
pub struct TaskManager {
    /// Ids of the runnable tasks, in arrival order.
    pub ready_queue: Vec<usize>,
}

impl TaskManager {
    /// An empty ready queue.
    pub fn new() -> (tm: TaskManager)
        ensures
            tm.ready_queue@ =~= Seq::<usize>::empty(),
    {
        TaskManager { ready_queue: Vec::new() }
    }

    /// Appends a runnable task in O(1).
    pub fn add(&mut self, pid: usize)
        ensures
            final(self).ready_queue@ == old(self).ready_queue@.push(pid),
    {
        self.ready_queue.push(pid);
    }

    /// Removes and returns the queued task with the globally minimum stride
    /// (first encountered wins on ties), advancing its stride by
    /// `BIG_STRIDE / priority`; signals empty with `None`.
    pub fn fetch(&mut self, tasks: &mut Vec<Option<TaskControlBlock>>) -> (r: Option<usize>)
        requires
            queue_ok(old(self).ready_queue@, old(tasks)@),
            queue_schedulable(old(self).ready_queue@, old(tasks)@),
        ensures
            old(self).ready_queue@.len() == 0 ==> r is None && final(self).ready_queue@ == old(
                self,
            ).ready_queue@ && final(tasks)@ == old(tasks)@,
            old(self).ready_queue@.len() > 0 ==> {
                let k = min_stride_idx(old(self).ready_queue@, old(tasks)@);
                let pid = old(self).ready_queue@[k];
                &&& r == Some(pid)
                &&& final(self).ready_queue@ == old(self).ready_queue@.remove(k)
                &&& final(tasks)@ == old(tasks)@.update(
                    pid as int,
                    Some(bumped(old(tasks)@[pid as int].unwrap())),
                )
            },
    {
        if self.ready_queue.len() == 0 {
            return None;
        }
        let ghost q = self.ready_queue@;
        let ghost tasks0 = tasks@;
        let mut min_idx: usize = 0;
        let first = self.ready_queue[0];
        let mut min_stride: u64 = tasks[first].as_ref().unwrap().stride;
        let mut i: usize = 1;
        while i < self.ready_queue.len()
            invariant
                queue_ok(q, tasks0),
                queue_schedulable(q, tasks0),
                self.ready_queue@ == q,
                tasks@ == tasks0,
                1 <= i <= q.len(),
                min_idx < i,
                min_stride == stride_at(tasks0, q[min_idx as int]),
                forall|j: int| 0 <= j < i ==> min_stride <= stride_at(tasks0, #[trigger] q[j]),
                forall|j: int| 0 <= j < min_idx ==> stride_at(tasks0, #[trigger] q[j]) > min_stride,
            decreases q.len() - i,
        {
            let pid = self.ready_queue[i];
            let cur = tasks[pid].as_ref().unwrap().stride;
            if cur < min_stride {
                min_idx = i;
                min_stride = cur;
            }
            i += 1;
        }
        proof {
            lemma_min_stride_idx(q, tasks0);
            let k = min_stride_idx(q, tasks0);
            if min_idx < k {
                assert(stride_at(tasks0, q[min_idx as int]) > stride_at(tasks0, q[k]));
            }
            if k < min_idx {
                assert(stride_at(tasks0, q[k]) > min_stride);
            }
            assert(min_idx == k);
        }
        let pid = self.ready_queue[min_idx];
        if let Some(tcb) = &mut tasks[pid] {
            let inc = BIG_STRIDE / (tcb.priority as u64);
            tcb.stride = tcb.stride + inc;
        }
        assert(tasks@ =~= tasks0.update(pid as int, Some(bumped(tasks0[pid as int].unwrap()))));
        self.ready_queue.remove(min_idx);
        Some(pid)
    }
}

/// One dispatch quantum: the stride advance a task of this priority receives.
pub open spec fn quantum(prio: usize) -> u64 {
    BIG_STRIDE / (prio as u64)
}

/// Scheduler fairness: when every queued task has the same priority and all
/// strides lie within one quantum of each other, one dispatch (the chosen
/// minimum-stride task bumped and conceptually re-entering the bag) keeps
/// all strides within one quantum of the new minimum.  The spread therefore
/// never exceeds one increment, so within any window of as many dispatches
/// as there are tasks, each task is dispatched at least once.
pub proof fn lemma_fairness_spread(
    q: Seq<usize>,
    tasks: Seq<Option<TaskControlBlock>>,
    prio: usize,
    lo: u64,
)
    requires
        q.len() > 0,
        queue_ok(q, tasks),
        prio >= 2,
        forall|i: int| 0 <= i < q.len() ==> priority_at(tasks, #[trigger] q[i]) == prio,
        forall|i: int| 0 <= i < q.len() ==> lo <= stride_at(tasks, #[trigger] q[i]),
        forall|i: int|
            0 <= i < q.len() ==> stride_at(tasks, #[trigger] q[i]) <= lo + quantum(prio),
        lo + 2 * quantum(prio) <= u64::MAX,
    ensures
        ({
            let m = min_stride_idx(q, tasks);
            let newlo = stride_at(tasks, q[m]);
            let t2 = tasks.update(q[m] as int, Some(bumped(tasks[q[m] as int].unwrap())));
            &&& lo <= newlo
            &&& forall|i: int| 0 <= i < q.len() ==> newlo <= stride_at(t2, #[trigger] q[i])
            &&& forall|i: int|
                0 <= i < q.len() ==> stride_at(t2, #[trigger] q[i]) <= newlo + quantum(prio)
        }),
{
    lemma_min_stride_idx(q, tasks);
    let m = min_stride_idx(q, tasks);
    let newlo = stride_at(tasks, q[m]);
    let t2 = tasks.update(q[m] as int, Some(bumped(tasks[q[m] as int].unwrap())));
    assert forall|i: int| 0 <= i < q.len() implies newlo <= stride_at(t2, #[trigger] q[i])
        && stride_at(t2, q[i]) <= newlo + quantum(prio) by {
        if q[i] == q[m] {
            assert(stride_at(t2, q[i]) == newlo + quantum(prio));
        } else {
            assert(stride_at(t2, q[i]) == stride_at(tasks, q[i]));
            assert(newlo <= stride_at(tasks, q[i]));
            assert(stride_at(tasks, q[i]) <= lo + quantum(prio));
        }
    }
}

/// The control block after `n` dispatches, with no other change.
pub open spec fn dispatched(t: TaskControlBlock, n: nat) -> TaskControlBlock
    decreases n,
{
    if n == 0 {
        t
    } else {
        bumped(dispatched(t, (n - 1) as nat))
    }
}

/// Priority proportionality: over `n` dispatches a task accumulates exactly
/// `n * (BIG_STRIDE / priority)` of stride.  Since every runnable task's
/// accumulated stride stays within one quantum of the others (see the
/// fairness lemma), two tasks that run long enough are dispatched with
/// frequencies in inverse proportion to their quanta — that is, in
/// proportion `p2 : p1` for priorities `p1 < p2`.
pub proof fn lemma_stride_accumulation(t: TaskControlBlock, n: nat)
    requires
        t.priority >= 2,
        t.stride + n * quantum(t.priority) <= u64::MAX,
    ensures
        dispatched(t, n).stride == t.stride + n * quantum(t.priority),
        dispatched(t, n).priority == t.priority,
    decreases n,
{
    let q = quantum(t.priority) as int;
    let s0 = t.stride as int;
    if n > 0 {
        assert((n - 1) * q <= n * q && n * q == (n - 1) * q + q) by (nonlinear_arith)
            requires
                n >= 1,
                q >= 0,
        ;
        lemma_stride_accumulation(t, (n - 1) as nat);
        assert(dispatched(t, (n - 1) as nat).stride == s0 + (n - 1) * q);
        assert(dispatched(t, n) == bumped(dispatched(t, (n - 1) as nat)));
        assert(s0 + (n - 1) * q + q <= u64::MAX);
        assert(dispatched(t, n).stride == s0 + (n - 1) * q + q);
        assert(dispatched(t, n).stride == s0 + n * q);
    } else {
        assert(n * q == 0) by (nonlinear_arith)
            requires
                n == 0,
        ;
    }
}

} // verus!
