//! Process lifecycle syscalls: fork, exec, spawn, exit, wait, yield, the
//! heap and page-map operations, and scheduling-priority control.  Every
//! call acts on an explicit [`Kernel`] and speaks about the running task.

use vstd::prelude::*;

use crate::sched::BIG_STRIDE;
use crate::sched::STRIDE_LIMIT;
use crate::sched::queue_ok;
use crate::sched::queue_schedulable;
use crate::sched::min_stride_idx;
use crate::sched::bumped;
use crate::task::AddrSpace;
use crate::task::Kernel;
use crate::task::PageMapping;
use crate::task::ProgramImage;
use crate::task::TaskControlBlock;
use crate::task::TaskStatus;

verus! {

/// Number of bytes in one page.
pub const PAGE_SIZE: usize = 4096;

/// Number of syscall classes counted by the per-task histogram.
pub const MAX_SYSCALL_NUM: usize = 500;

/// Seconds and microseconds of one instant.
#[derive(Clone, Copy, PartialEq, Eq, Structural, Debug)]
pub struct TimeVal {
    /// Whole seconds.
    pub sec: usize,
    /// Microseconds below one second.
    pub usec: usize,
}

/// A snapshot of one task's accounting.
pub struct TaskInfo {
    /// Task status in its life cycle.
    pub status: TaskStatus,
    /// The numbers of syscalls called by the task.
    pub syscall_times: Vec<u32>,
    /// Total running time of the task, in milliseconds.
    pub time: usize,
}

/// Pid of the running task.
pub fn sys_getpid(k: &Kernel) -> (r: isize)
    requires
        k.wf(),
        k.current is Some,
    ensures
        r == k.cur(),
{
    k.current.unwrap() as isize
}

/// Clock reading split into seconds and microseconds.
pub fn sys_get_time(k: &Kernel) -> (tv: TimeVal)
    ensures
        tv.sec == k.time_us / 1_000_000,
        tv.usec == k.time_us % 1_000_000,
{
    TimeVal { sec: k.time_us / 1_000_000, usec: k.time_us % 1_000_000 }
}

/// Sets the running task's scheduling priority.  A requested priority below
/// the floor of 2 is rejected with -1 and the stored priority is unchanged;
/// otherwise the new priority takes effect for subsequent dispatches and is
/// returned.
pub fn sys_set_priority(k: &mut Kernel, prio: isize) -> (r: isize)
    requires
        old(k).wf(),
        old(k).current is Some,
    ensures
        final(k).wf(),
        prio < 2 ==> r == -1 && *final(k) == *old(k),
        prio >= 2 ==> r == prio && final(k).tasks@ == old(k).tasks@.update(
            old(k).cur(),
            Some(
                (TaskControlBlock { priority: prio as usize, ..old(k).task(old(k).cur()) }),
            ),
        ) && *final(k) == (Kernel { tasks: final(k).tasks, ..*old(k) }),
{
    if prio < 2 {
        return -1;
    }
    let ghost a = *old(k);
    let c = k.current.unwrap();
    if let Some(t) = &mut k.tasks[c] {
        t.priority = prio as usize;
    }
    proof {
        lemma_wf_after_task_update(a, *k, c as int);
    }
    prio
}

/// Grows or shrinks the running task's heap by `size` bytes from the current
/// break.  Returns the previous break, or -1 (changing nothing) if the
/// result would fall below the heap's lower bound or past the address space.
pub fn sys_sbrk(k: &mut Kernel, size: i32) -> (r: isize)
    requires
        old(k).wf(),
        old(k).current is Some,
        !(old(k).task(old(k).cur()).status is Zombie),
        old(k).task(old(k).cur()).program_brk <= 0x7FFF_FFFF,
    ensures
        final(k).wf(),
        ({
            let t = old(k).task(old(k).cur());
            let nb = t.program_brk + size;
            &&& (nb < t.heap_bottom || nb > usize::MAX ==> r == -1 && *final(k) == *old(k))
            &&& (t.heap_bottom <= nb <= usize::MAX ==> {
                let sp = t.space.unwrap() as int;
                let oldheap = old(k).spaces@[sp].unwrap().heap@;
                &&& r == t.program_brk
                &&& final(k).task(old(k).cur()).program_brk == nb
                &&& final(k).task(old(k).cur()).heap_bottom == t.heap_bottom
                &&& final(k).spaces@[sp].unwrap().heap@.len() == nb - t.heap_bottom
                &&& (forall|i: int|
                    0 <= i < oldheap.len() && i < nb - t.heap_bottom ==> final(k).spaces@[sp].unwrap().heap@[i] == oldheap[i])
                &&& (forall|i: int|
                    oldheap.len() <= i < nb - t.heap_bottom ==> final(k).spaces@[sp].unwrap().heap@[i] == 0)
                &&& (forall|j: int|
                    0 <= j < old(k).spaces@.len() && j != sp ==> final(k).spaces@[j] == old(k).spaces@[j])
                &&& final(k).current == old(k).current
                &&& final(k).ready == old(k).ready
            })
        }),
{
    let ghost a = *old(k);
    let c = k.current.unwrap();
    let brk = k.tasks[c].as_ref().unwrap().program_brk;
    let bottom = k.tasks[c].as_ref().unwrap().heap_bottom;
    let sp = k.tasks[c].as_ref().unwrap().space.unwrap();
    proof {
        assert(a.task_ok(c as int));
        assert(a.spaces@[sp as int].unwrap().heap@.len() == brk - bottom);
    }
    if size >= 0 {
        let grow = size as usize;
        if brk > usize::MAX - grow {
            return -1;
        }
        let nb = brk + grow;
        if let Some(t) = &mut k.tasks[c] {
            t.program_brk = nb;
        }
        let ghost oldheap = a.spaces@[sp as int].unwrap().heap@;
        if let Some(space) = &mut k.spaces[sp] {
            let mut grown: usize = 0;
            while grown < grow
                invariant
                    grown <= grow,
                    space.heap@.len() == oldheap.len() + grown,
                    forall|i: int| 0 <= i < oldheap.len() ==> (#[trigger] space.heap@[i])
                        == oldheap[i],
                    forall|i: int|
                        oldheap.len() <= i < space.heap@.len() ==> (#[trigger] space.heap@[i]) == 0,
                    space.pages == a.spaces@[sp as int].unwrap().pages,
                decreases grow - grown,
            {
                space.heap.push(0);
                grown += 1;
            }
        }
        proof {
            assert(k.spaces@[sp as int].unwrap().heap@.len() == nb - bottom);
            lemma_wf_after_brk_update(a, *k, c as int, sp as int);
        }
        brk as isize
    } else {
        let shrink = (-(size as i64)) as usize;
        proof {
            assert(shrink == -(size as int));
        }
        if shrink > brk || brk - shrink < bottom {
            return -1;
        }
        let nb = brk - shrink;
        if let Some(t) = &mut k.tasks[c] {
            t.program_brk = nb;
        }
        if let Some(space) = &mut k.spaces[sp] {
            space.heap.truncate(nb - bottom);
        }
        proof {
            assert(a.spaces@[sp as int].unwrap().heap@.len() == brk - bottom);
            lemma_wf_after_brk_update(a, *k, c as int, sp as int);
        }
        brk as isize
    }
}

/// Writes one byte of the running task's heap; `addr` is an absolute
/// address between the heap's lower bound and the break.
pub fn heap_write(k: &mut Kernel, addr: usize, value: u8)
    requires
        old(k).wf(),
        old(k).current is Some,
        !(old(k).task(old(k).cur()).status is Zombie),
        old(k).task(old(k).cur()).heap_bottom <= addr < old(k).task(old(k).cur()).program_brk,
    ensures
        final(k).wf(),
        ({
            let t = old(k).task(old(k).cur());
            let sp = t.space.unwrap() as int;
            &&& final(k).spaces@[sp].unwrap().heap@ == old(k).spaces@[sp].unwrap().heap@.update(
                addr - t.heap_bottom,
                value,
            )
            &&& (forall|j: int|
                0 <= j < old(k).spaces@.len() && j != sp ==> final(k).spaces@[j] == old(k).spaces@[j])
            &&& final(k).tasks == old(k).tasks
            &&& final(k).current == old(k).current
            &&& final(k).ready == old(k).ready
        }),
{
    let ghost a = *old(k);
    let c = k.current.unwrap();
    let bottom = k.tasks[c].as_ref().unwrap().heap_bottom;
    let sp = k.tasks[c].as_ref().unwrap().space.unwrap();
    if let Some(space) = &mut k.spaces[sp] {
        space.heap[addr - bottom] = value;
    }
    proof {
        lemma_wf_after_brk_update(a, *k, c as int, sp as int);
    }
}

/// Reads one byte of the running task's heap.
pub fn heap_read(k: &Kernel, addr: usize) -> (v: u8)
    requires
        k.wf(),
        k.current is Some,
        !(k.task(k.cur()).status is Zombie),
        k.task(k.cur()).heap_bottom <= addr < k.task(k.cur()).program_brk,
    ensures
        v == k.spaces@[k.task(k.cur()).space.unwrap() as int].unwrap().heap@[addr - k.task(
            k.cur(),
        ).heap_bottom],
{
    let c = k.current.unwrap();
    let bottom = k.tasks[c].as_ref().unwrap().heap_bottom;
    let sp = k.tasks[c].as_ref().unwrap().space.unwrap();
    k.spaces[sp].as_ref().unwrap().heap[addr - bottom]
}

/// Only the current task's block changed, and in no structural field (pid,
/// children, space, status); everything else of the kernel is as before.
proof fn lemma_wf_after_task_update(a: Kernel, b: Kernel, c: int)
    requires
        a.wf(),
        a.current is Some,
        c == a.cur(),
        b.tasks@.len() == a.tasks@.len(),
        forall|i: int| 0 <= i < a.tasks@.len() && i != c ==> b.tasks@[i] == a.tasks@[i],
        b.live(c),
        b.task(c).pid == a.task(c).pid,
        b.task(c).status == a.task(c).status,
        b.task(c).children == a.task(c).children,
        b.task(c).space == a.task(c).space,
        b.task(c).parent == a.task(c).parent,
        b.task(c).heap_bottom == a.task(c).heap_bottom,
        b.task(c).program_brk == a.task(c).program_brk,
        b.task(c).priority >= 2,
        b.current == a.current,
        b.ready == a.ready,
        b.spaces == a.spaces,
        b.next_ppn == a.next_ppn,
        b.time_us == a.time_us,
    ensures
        b.wf(),
{
    assert forall|i: int| b.live(i) implies b.task_ok(i) by {
        assert(a.task_ok(i));
        assert forall|j: int| 0 <= j < b.task(i).children@.len() implies b.live(
            (#[trigger] b.task(i).children@[j]) as int,
        ) && b.task(b.task(i).children@[j] as int).parent == Some(i as usize) by {
            assert(a.live(a.task(i).children@[j] as int));
            if a.task(i).children@[j] as int == c {
                assert(a.task(c).parent == Some(i as usize));
            }
        }
    }
    assert forall|i: int, j: int|
        b.live(i) && b.live(j) && i != j && !(b.task(i).status is Zombie) && !(b.task(j).status
            is Zombie) implies (#[trigger] b.task(i).space) != (#[trigger] b.task(j).space) by {
        assert(b.task(i).space == a.task(i).space);
        assert(b.task(j).space == a.task(j).space);
        assert(a.task(i).space != a.task(j).space);
    }
    assert(b.task(b.cur()).status is Running) by {
        assert(a.task(a.cur()).status is Running);
    }
    assert(queue_ok(b.ready.ready_queue@, b.tasks@));
    assert forall|i: int| 0 <= i < b.ready.ready_queue@.len() implies b.task(
        (#[trigger] b.ready.ready_queue@[i]) as int,
    ).status is Ready by {
        assert(a.task(a.ready.ready_queue@[i] as int).status is Ready);
    }
}

/// Only the current task's heap bounds and its own address space changed,
/// and they still agree; everything else of the kernel is as before.
proof fn lemma_wf_after_brk_update(a: Kernel, b: Kernel, c: int, sp: int)
    requires
        a.wf(),
        a.current is Some,
        c == a.cur(),
        !(a.task(c).status is Zombie),
        sp == a.task(c).space.unwrap(),
        b.tasks@.len() == a.tasks@.len(),
        forall|i: int| 0 <= i < a.tasks@.len() && i != c ==> b.tasks@[i] == a.tasks@[i],
        b.live(c),
        b.task(c).pid == a.task(c).pid,
        b.task(c).status == a.task(c).status,
        b.task(c).children == a.task(c).children,
        b.task(c).space == a.task(c).space,
        b.task(c).parent == a.task(c).parent,
        b.task(c).priority == a.task(c).priority,
        b.spaces@.len() == a.spaces@.len(),
        forall|j: int| 0 <= j < a.spaces@.len() && j != sp ==> b.spaces@[j] == a.spaces@[j],
        b.spaces@[sp] is Some,
        b.spaces@[sp].unwrap().wf(b.task(c).heap_bottom, b.task(c).program_brk),
        b.current == a.current,
        b.ready == a.ready,
        b.next_ppn == a.next_ppn,
        b.time_us == a.time_us,
    ensures
        b.wf(),
{
    assert forall|i: int| b.live(i) implies b.task_ok(i) by {
        assert(a.task_ok(i));
        if i != c {
            assert(b.task(i) == a.task(i));
            if !(a.task(i).status is Zombie) {
                assert(a.task(i).space != a.task(c).space);
            }
        }
        assert forall|j: int| 0 <= j < b.task(i).children@.len() implies b.live(
            (#[trigger] b.task(i).children@[j]) as int,
        ) && b.task(b.task(i).children@[j] as int).parent == Some(i as usize) by {
            assert(a.live(a.task(i).children@[j] as int));
            if a.task(i).children@[j] as int == c {
                assert(a.task(c).parent == Some(i as usize));
            }
        }
    }
    assert forall|i: int, j: int|
        b.live(i) && b.live(j) && i != j && !(b.task(i).status is Zombie) && !(b.task(j).status
            is Zombie) implies (#[trigger] b.task(i).space) != (#[trigger] b.task(j).space) by {
        assert(b.task(i).space == a.task(i).space);
        assert(b.task(j).space == a.task(j).space);
        assert(a.task(i).space != a.task(j).space);
    }
    assert(b.task(b.cur()).status is Running) by {
        assert(a.task(a.cur()).status is Running);
    }
    assert(queue_ok(b.ready.ready_queue@, b.tasks@));
    assert forall|i: int| 0 <= i < b.ready.ready_queue@.len() implies b.task(
        (#[trigger] b.ready.ready_queue@[i]) as int,
    ).status is Ready by {
        assert(a.task(a.ready.ready_queue@[i] as int).status is Ready);
    }
}

/// Copies an open-file table: the same shared handles, entry for entry.
fn copy_fd_table(v: &Vec<Option<usize>>) -> (r: Vec<Option<usize>>)
    ensures
        r@ == v@,
{
    let mut r: Vec<Option<usize>> = Vec::new();
    let mut i: usize = 0;
    while i < v.len()
        invariant
            i <= v@.len(),
            r@.len() == i,
            forall|j: int| 0 <= j < i ==> (#[trigger] r@[j]) == v@[j],
        decreases v@.len() - i,
    {
        r.push(v[i]);
        i += 1;
    }
    proof {
        assert(r@ =~= v@);
    }
    r
}

/// A zeroed syscall histogram.
fn fresh_histogram() -> (r: Vec<u32>)
    ensures
        r@.len() == MAX_SYSCALL_NUM,
{
    let mut r: Vec<u32> = Vec::new();
    while r.len() < MAX_SYSCALL_NUM
        invariant
            r@.len() <= MAX_SYSCALL_NUM,
        decreases MAX_SYSCALL_NUM - r@.len(),
    {
        r.push(0);
    }
    r
}

/// Boots the kernel: one initial task built from the given program image is
/// running; nothing else exists yet.
pub fn boot(image: &ProgramImage) -> (k: Kernel)
    ensures
        k.wf(),
        k.tasks@.len() == 1,
        k.live(0),
        k.task(0).status is Running,
        k.task(0).pid == 0,
        k.task(0).parent is None,
        k.task(0).children@.len() == 0,
        k.task(0).heap_bottom == image.base_size,
        k.task(0).program_brk == image.base_size,
        k.task(0).priority == 16,
        k.task(0).stride == 0,
        k.current == Some(0usize),
        k.ready.ready_queue@.len() == 0,
        k.spaces@.len() == 1,
        k.time_us == 0,
{
    let mut tasks: Vec<Option<TaskControlBlock>> = Vec::new();
    let mut fd_table: Vec<Option<usize>> = Vec::new();
    fd_table.push(Some(0));
    fd_table.push(Some(1));
    fd_table.push(Some(2));
    tasks.push(
        Some(
            TaskControlBlock {
                pid: 0,
                status: TaskStatus::Running,
                parent: None,
                children: Vec::new(),
                exit_code: 0,
                fd_table,
                space: Some(0),
                heap_bottom: image.base_size,
                program_brk: image.base_size,
                stride: 0,
                priority: 16,
                pending_return: 0,
                start_time: 0,
                syscall_times: fresh_histogram(),
            },
        ),
    );
    let mut spaces: Vec<Option<AddrSpace>> = Vec::new();
    spaces.push(Some(AddrSpace { heap: Vec::new(), pages: Vec::new() }));
    Kernel {
        tasks,
        current: Some(0),
        ready: crate::sched::TaskManager::new(),
        spaces,
        next_ppn: 0x80000,
        time_us: 0,
    }
}

/// Gives up the processor: the running task re-enters the ready queue and
/// the queued task with the minimum stride is dispatched in its place, its
/// stride advanced by one quantum.
#[verifier::rlimit(80)]
pub fn sys_yield(k: &mut Kernel) -> (r: isize)
    requires
        old(k).wf(),
        old(k).current is Some,
        old(k).task(old(k).cur()).stride <= STRIDE_LIMIT,
        queue_schedulable(old(k).ready.ready_queue@, old(k).tasks@),
    ensures
        final(k).wf(),
        r == 0,
        ({
            let c = old(k).cur();
            let t1 = old(k).tasks@.update(
                c,
                Some((TaskControlBlock { status: TaskStatus::Ready, ..old(k).task(c) })),
            );
            let q2 = old(k).ready.ready_queue@.push(old(k).current.unwrap());
            let m = min_stride_idx(q2, t1);
            let chosen = q2[m];
            &&& final(k).current == Some(chosen)
            &&& final(k).ready.ready_queue@ == q2.remove(m)
            &&& final(k).tasks@ == t1.update(
                chosen as int,
                Some(
                    (TaskControlBlock {
                        status: TaskStatus::Running,
                        ..bumped(t1[chosen as int].unwrap())
                    }),
                ),
            )
            &&& final(k).spaces == old(k).spaces
            &&& final(k).time_us == old(k).time_us
        }),
{
    let ghost a = *old(k);
    let c = k.current.unwrap();
    if let Some(t) = &mut k.tasks[c] {
        t.status = TaskStatus::Ready;
    }
    let ghost t1 = k.tasks@;
    k.ready.add(c);
    k.current = None;
    proof {
        let q2 = k.ready.ready_queue@;
        assert(queue_ok(q2, k.tasks@));
        assert forall|i: int| 0 <= i < q2.len() implies crate::sched::priority_at(
            k.tasks@,
            #[trigger] q2[i],
        ) >= 2 && crate::sched::stride_at(k.tasks@, q2[i]) <= STRIDE_LIMIT by {
            if i < a.ready.ready_queue@.len() {
                assert(crate::sched::priority_at(a.tasks@, q2[i]) >= 2);
                assert(crate::sched::stride_at(a.tasks@, q2[i]) <= STRIDE_LIMIT);
            } else {
                assert(a.task_ok(c as int));
            }
        }
    }
    let nxt_opt = k.ready.fetch(&mut k.tasks);
    let nxt = nxt_opt.unwrap();
    proof {
        let q2 = a.ready.ready_queue@.push(c);
        crate::sched::lemma_min_stride_idx(q2, t1);
        assert((nxt as int) < k.tasks@.len());
        assert(k.tasks@[nxt as int] is Some);
    }
    if let Some(t) = &mut k.tasks[nxt] {
        t.status = TaskStatus::Running;
    }
    k.current = Some(nxt);
    proof {
        let b = *k;
        let q2 = a.ready.ready_queue@.push(c);
        let m = min_stride_idx(q2, t1);
        crate::sched::lemma_min_stride_idx(q2, t1);
        assert(b.tasks@ =~= t1.update(
            nxt as int,
            Some((TaskControlBlock { status: TaskStatus::Running, ..bumped(t1[nxt as int].unwrap()) })),
        ));
        assert forall|i: int| b.live(i) implies b.task_ok(i) by {
            assert(a.task_ok(i));
            assert forall|j: int| 0 <= j < b.task(i).children@.len() implies b.live(
                (#[trigger] b.task(i).children@[j]) as int,
            ) && b.task(b.task(i).children@[j] as int).parent == Some(i as usize) by {
                assert(a.task_ok(i));
                assert(a.live(a.task(i).children@[j] as int));
                if a.task(i).children@[j] as int == c {
                    assert(a.task(c as int).parent == Some(i as usize));
                }
                if a.task(i).children@[j] as int == nxt {
                    assert(a.task(nxt as int).parent == Some(i as usize));
                }
            }
        }
        assert forall|i: int, j: int|
            b.live(i) && b.live(j) && i != j && !(b.task(i).status is Zombie) && !(b.task(j).status
                is Zombie) implies (#[trigger] b.task(i).space) != (#[trigger] b.task(j).space) by {
            assert(b.task(i).space == a.task(i).space);
            assert(b.task(j).space == a.task(j).space);
            assert(a.task(i).space != a.task(j).space);
        }
        assert(queue_ok(b.ready.ready_queue@, b.tasks@));
        assert forall|i: int| 0 <= i < b.ready.ready_queue@.len() implies b.task(
            (#[trigger] b.ready.ready_queue@[i]) as int,
        ).status is Ready by {
            let v = b.ready.ready_queue@[i];
            assert(q2.remove(m).len() == q2.len() - 1);
            assert(v == q2[if i < m {
                i
            } else {
                i + 1
            }]);
            assert(v != nxt);
            if v != c {
                assert(a.task(v as int).status is Ready);
            }
        }
        assert forall|i: int, j: int|
            0 <= i < j < b.ready.ready_queue@.len() implies b.ready.ready_queue@[i]
            != b.ready.ready_queue@[j] by {
            let qi = if i < m {
                i
            } else {
                i + 1
            };
            let qj = if j < m {
                j
            } else {
                j + 1
            };
            assert(b.ready.ready_queue@[i] == q2[qi]);
            assert(b.ready.ready_queue@[j] == q2[qj]);
            assert forall|x: int, y: int| 0 <= x < y < q2.len() implies q2[x] != q2[y] by {
                if y < a.ready.ready_queue@.len() {
                } else {
                    assert(a.task(q2[x] as int).status is Ready || q2[x] == c);
                    if q2[x] != c {
                        assert(a.task(q2[x] as int).status is Ready);
                    }
                }
            }
        }
    }
    0
}

/// Terminates the running task: it becomes a zombie holding its exit code,
/// its address space is released and its children become unreachable
/// through it; the record itself stays reachable through the parent's child
/// list until it is reaped.  The queued task with minimum stride runs next,
/// if any remains.
#[verifier::rlimit(80)]
pub fn sys_exit(k: &mut Kernel, exit_code: i32)
    requires
        old(k).wf(),
        old(k).current is Some,
        queue_schedulable(old(k).ready.ready_queue@, old(k).tasks@),
    ensures
        final(k).wf(),
        ({
            let c = old(k).cur();
            let t = old(k).task(c);
            &&& final(k).task(c).status is Zombie
            &&& final(k).task(c).exit_code == exit_code
            &&& final(k).task(c).space is None
            &&& final(k).task(c).children@.len() == 0
            &&& final(k).task(c).pid == t.pid
            &&& final(k).task(c).parent == t.parent
            &&& final(k).spaces@[t.space.unwrap() as int] is None
            &&& (old(k).ready.ready_queue@.len() == 0 ==> final(k).current is None && final(k).ready.ready_queue@.len() == 0)
            &&& (old(k).ready.ready_queue@.len() > 0 ==> {
                let q = old(k).ready.ready_queue@;
                let m = min_stride_idx(q, old(k).tasks@);
                &&& final(k).current == Some(q[m])
                &&& final(k).task(q[m] as int).status is Running
                &&& final(k).ready.ready_queue@ == q.remove(m)
            })
            &&& (forall|i: int|
                old(k).live(i) && i != c ==> final(k).live(i) && (#[trigger] final(k).task(i)).pid == old(k).task(i).pid && final(k).task(i).children == old(k).task(
                    i,
                ).children && final(k).task(i).exit_code == old(k).task(i).exit_code)
        }),
{
    let ghost a = *old(k);
    let c = k.current.unwrap();
    let sp = k.tasks[c].as_ref().unwrap().space.unwrap();
    if let Some(t) = &mut k.tasks[c] {
        t.status = TaskStatus::Zombie;
        t.exit_code = exit_code;
        t.space = None;
        t.children = Vec::new();
    }
    k.spaces[sp] = None;
    k.current = None;
    let ghost t1 = k.tasks@;
    proof {
        assert(a.task_ok(c as int));
        assert(queue_ok(k.ready.ready_queue@, k.tasks@));
        assert forall|i: int| 0 <= i < k.ready.ready_queue@.len() implies crate::sched::priority_at(
            k.tasks@,
            #[trigger] k.ready.ready_queue@[i],
        ) >= 2 && crate::sched::stride_at(k.tasks@, k.ready.ready_queue@[i])
            <= STRIDE_LIMIT by {
            assert(a.task(a.ready.ready_queue@[i] as int).status is Ready);
            assert(crate::sched::priority_at(a.tasks@, k.ready.ready_queue@[i]) >= 2);
            assert(crate::sched::stride_at(a.tasks@, k.ready.ready_queue@[i]) <= STRIDE_LIMIT);
        }
    }
    let nxt_opt = k.ready.fetch(&mut k.tasks);
    if let Some(nxt) = nxt_opt {
        proof {
            let q = a.ready.ready_queue@;
            crate::sched::lemma_min_stride_idx(q, t1);
            assert((nxt as int) < k.tasks@.len());
            assert(k.tasks@[nxt as int] is Some);
        }
        if let Some(t) = &mut k.tasks[nxt] {
            t.status = TaskStatus::Running;
        }
        k.current = Some(nxt);
    }
    proof {
        let b = *k;
        let q = a.ready.ready_queue@;
        if q.len() > 0 {
            crate::sched::lemma_min_stride_idx(q, t1);
        }
        proof_min_same(a, t1);
        let m = min_stride_idx(q, t1);
        assert(m == min_stride_idx(q, a.tasks@));
        assert forall|i: int| b.live(i) implies b.task_ok(i) by {
            assert(a.task_ok(i));
            assert forall|j: int| 0 <= j < b.task(i).children@.len() implies b.live(
                (#[trigger] b.task(i).children@[j]) as int,
            ) && b.task(b.task(i).children@[j] as int).parent == Some(i as usize) by {
                assert(a.task_ok(i));
                assert(i != c);
                assert(b.task(i).children@[j] == a.task(i).children@[j]);
                assert(a.live(a.task(i).children@[j] as int));
                if a.task(i).children@[j] as int == c {
                    assert(a.task(c as int).parent == Some(i as usize));
                }
            }
            if !(b.task(i).status is Zombie) && i != c {
                assert(a.task(i).space != a.task(c as int).space);
            }
        }
        assert forall|i: int, j: int|
            b.live(i) && b.live(j) && i != j && !(b.task(i).status is Zombie) && !(b.task(j).status
                is Zombie) implies (#[trigger] b.task(i).space) != (#[trigger] b.task(j).space) by {
            assert(b.task(i).space == a.task(i).space);
            assert(b.task(j).space == a.task(j).space);
            assert(a.task(i).space != a.task(j).space);
        }
        assert(queue_ok(b.ready.ready_queue@, b.tasks@));
        assert forall|i: int| 0 <= i < b.ready.ready_queue@.len() implies b.task(
            (#[trigger] b.ready.ready_queue@[i]) as int,
        ).status is Ready by {
            let v = b.ready.ready_queue@[i];
            assert(v == q[if i < m {
                i
            } else {
                i + 1
            }]);
            assert(v != q[m]);
            assert(a.task(v as int).status is Ready);
            assert(v != c);
        }
        assert forall|i: int, j: int|
            0 <= i < j < b.ready.ready_queue@.len() implies b.ready.ready_queue@[i]
            != b.ready.ready_queue@[j] by {
            assert(b.ready.ready_queue@[i] == q[if i < m {
                i
            } else {
                i + 1
            }]);
            assert(b.ready.ready_queue@[j] == q[if j < m {
                j
            } else {
                j + 1
            }]);
        }
    }
}

/// Forks the running task: the child gets a fresh pid and its own copy of
/// the parent's heap, the same shared file handles, the parent's heap
/// bounds, priority and stride, a first-return value of zero, and enters
/// the ready queue.  The child's writes can never reach the parent's
/// address space: the two spaces are distinct entries.
#[verifier::rlimit(80)]
pub fn sys_fork(k: &mut Kernel) -> (r: isize)
    requires
        old(k).wf(),
        old(k).current is Some,
        old(k).tasks@.len() < 0x7FFF_FFFF,
        old(k).spaces@.len() < 0x7FFF_FFFF,
    ensures
        final(k).wf(),
        ({
            let c = old(k).cur();
            let t = old(k).task(c);
            let child = old(k).tasks@.len() as int;
            let nsp = old(k).spaces@.len() as int;
            &&& r == child
            &&& final(k).tasks@.len() == child + 1
            &&& final(k).live(child)
            &&& final(k).task(child).status is Ready
            &&& final(k).task(child).pid == child
            &&& final(k).task(child).parent == Some(old(k).current.unwrap())
            &&& final(k).task(child).children@.len() == 0
            &&& final(k).task(child).fd_table@ == t.fd_table@
            &&& final(k).task(child).space == Some(nsp as usize)
            &&& final(k).task(child).heap_bottom == t.heap_bottom
            &&& final(k).task(child).program_brk == t.program_brk
            &&& final(k).task(child).stride == t.stride
            &&& final(k).task(child).priority == t.priority
            &&& final(k).task(child).pending_return == 0
            &&& final(k).task(child).space != final(k).task(c).space
            &&& final(k).spaces@[nsp].unwrap().heap@ == old(k).spaces@[
                t.space.unwrap() as int].unwrap().heap@
            &&& final(k).spaces@[t.space.unwrap() as int] == old(k).spaces@[t.space.unwrap() as int]
            &&& final(k).task(c) == (TaskControlBlock {
                children: final(k).task(c).children,
                ..t
            })
            &&& final(k).task(c).children@ == t.children@.push(child as usize)
            &&& final(k).ready.ready_queue@ == old(k).ready.ready_queue@.push(child as usize)
            &&& final(k).current == old(k).current
            &&& (forall|i: int|
                old(k).live(i) && i != c ==> (#[trigger] final(k).tasks@[i]) == old(k).tasks@[i])
        }),
{
    let ghost a = *old(k);
    let c = k.current.unwrap();
    proof {
        assert(a.task_ok(c as int));
    }
    let child = k.tasks.len();
    let nsp = k.spaces.len();
    let sp = k.tasks[c].as_ref().unwrap().space.unwrap();
    let fd_table = copy_fd_table(&k.tasks[c].as_ref().unwrap().fd_table);
    let heap_len = k.spaces[sp].as_ref().unwrap().heap.len();
    let mut newheap: Vec<u8> = Vec::new();
    let mut i: usize = 0;
    while i < heap_len
        invariant
            *k == a,
            (sp as int) == a.task(a.cur()).space.unwrap(),
            a.wf(),
            a.current is Some,
            a.spaces@[sp as int] is Some,
            heap_len == a.spaces@[sp as int].unwrap().heap@.len(),
            i <= heap_len,
            newheap@.len() == i,
            forall|j: int|
                0 <= j < i ==> (#[trigger] newheap@[j]) == a.spaces@[sp as int].unwrap().heap@[j],
        decreases heap_len - i,
    {
        let b = k.spaces[sp].as_ref().unwrap().heap[i];
        newheap.push(b);
        i += 1;
    }
    proof {
        assert(newheap@ =~= a.spaces@[sp as int].unwrap().heap@);
    }
    let parent_tcb = k.tasks[c].as_ref().unwrap();
    let child_tcb = TaskControlBlock {
        pid: child,
        status: TaskStatus::Ready,
        parent: Some(c),
        children: Vec::new(),
        exit_code: 0,
        fd_table,
        space: Some(nsp),
        heap_bottom: parent_tcb.heap_bottom,
        program_brk: parent_tcb.program_brk,
        stride: parent_tcb.stride,
        priority: parent_tcb.priority,
        pending_return: 0,
        start_time: parent_tcb.start_time,
        syscall_times: fresh_histogram(),
    };
    k.spaces.push(Some(AddrSpace { heap: newheap, pages: Vec::new() }));
    k.tasks.push(Some(child_tcb));
    if let Some(t) = &mut k.tasks[c] {
        t.children.push(child);
    }
    k.ready.add(child);
    proof {
        let b = *k;
        let ci = c as int;
        let chi = child as int;
        assert forall|i2: int| b.live(i2) implies b.task_ok(i2) by {
            if i2 == chi {
                assert(b.task(chi).pid == chi);
            } else {
                assert(a.task_ok(i2));
                assert forall|j: int| 0 <= j < b.task(i2).children@.len() implies b.live(
                    (#[trigger] b.task(i2).children@[j]) as int,
                ) && b.task(b.task(i2).children@[j] as int).parent == Some(i2 as usize) by {
                    if i2 == ci && j == b.task(i2).children@.len() - 1 {
                        assert(b.task(i2).children@[j] == child);
                    } else {
                        assert(b.task(i2).children@[j] == a.task(i2).children@[j]);
                        assert(a.live(a.task(i2).children@[j] as int));
                        assert((a.task(i2).children@[j] as int) != chi);
                    }
                }
                assert forall|j: int, j2: int|
                    0 <= j < j2 < b.task(i2).children@.len() implies b.task(i2).children@[j]
                    != b.task(i2).children@[j2] by {
                    if i2 == ci && j2 == b.task(i2).children@.len() - 1 {
                        assert(a.live(a.task(i2).children@[j] as int));
                    }
                }
            }
        }
        assert forall|i2: int, j: int|
            b.live(i2) && b.live(j) && i2 != j && !(b.task(i2).status is Zombie) && !(b.task(
                j,
            ).status is Zombie) implies (#[trigger] b.task(i2).space) != (
        #[trigger] b.task(j).space) by {
            if i2 != chi && j != chi {
                assert(b.task(i2).space == a.task(i2).space);
                assert(b.task(j).space == a.task(j).space);
                assert(a.task(i2).space != a.task(j).space);
            } else {
                if i2 == chi && j != chi {
                    assert(a.task_ok(j));
                }
                if j == chi && i2 != chi {
                    assert(a.task_ok(i2));
                }
            }
        }
        assert(queue_ok(b.ready.ready_queue@, b.tasks@));
        assert forall|i2: int| 0 <= i2 < b.ready.ready_queue@.len() implies b.task(
            (#[trigger] b.ready.ready_queue@[i2]) as int,
        ).status is Ready by {
            if i2 < a.ready.ready_queue@.len() {
                assert(a.task(a.ready.ready_queue@[i2] as int).status is Ready);
            }
        }
        assert forall|i2: int, j: int|
            0 <= i2 < j < b.ready.ready_queue@.len() implies b.ready.ready_queue@[i2]
            != b.ready.ready_queue@[j] by {
            if j == b.ready.ready_queue@.len() - 1 {
                assert((b.ready.ready_queue@[i2] as int) < a.tasks@.len());
            }
        }
        assert(b.task(ci).children@ =~= a.task(ci).children@.push(child));
    }
    child as isize
}

/// After the exiting task's block is rewritten, the queued strides are
/// untouched, so the scheduler's choice is the same.
proof fn proof_min_same(a: Kernel, t1: Seq<Option<TaskControlBlock>>)
    requires
        a.wf(),
        a.current is Some,
        t1.len() == a.tasks@.len(),
        forall|i: int| 0 <= i < a.tasks@.len() && i != a.cur() ==> t1[i] == a.tasks@[i],
    ensures
        min_stride_idx(a.ready.ready_queue@, t1) == min_stride_idx(
            a.ready.ready_queue@,
            a.tasks@,
        ),
{
    let q = a.ready.ready_queue@;
    assert forall|i: int| 0 <= i < q.len() implies crate::sched::stride_at(t1, #[trigger] q[i])
        == crate::sched::stride_at(a.tasks@, q[i]) by {
        assert(a.task(q[i] as int).status is Ready);
        assert((q[i] as int) != a.cur());
    }
    crate::sched::lemma_min_stride_idx_same(q, t1, a.tasks@);
}

/// Whether a child id satisfies the wait target (`-1` matches any child).
pub open spec fn wait_matches(c: usize, pid: isize) -> bool {
    pid == -1 || c as int == pid
}

/// Position of the first matching zombie child at or after `i`; the list
/// length when there is none.
pub open spec fn first_zombie_match(
    k: Kernel,
    ch: Seq<usize>,
    pid: isize,
    i: int,
) -> int
    decreases ch.len() - i,
{
    if i < 0 || i >= ch.len() {
        ch.len() as int
    } else if wait_matches(ch[i], pid) && k.task(ch[i] as int).status is Zombie {
        i
    } else {
        first_zombie_match(k, ch, pid, i + 1)
    }
}

proof fn lemma_first_zombie_match(k: Kernel, ch: Seq<usize>, pid: isize, i: int)
    requires
        0 <= i <= ch.len(),
    ensures
        i <= first_zombie_match(k, ch, pid, i) <= ch.len(),
        forall|j: int|
            i <= j < first_zombie_match(k, ch, pid, i) ==> !(wait_matches(#[trigger] ch[j], pid)
                && k.task(ch[j] as int).status is Zombie),
        first_zombie_match(k, ch, pid, i) < ch.len() ==> wait_matches(
            ch[first_zombie_match(k, ch, pid, i)],
            pid,
        ) && k.task(ch[first_zombie_match(k, ch, pid, i)] as int).status is Zombie,
    decreases ch.len() - i,
{
    if i < ch.len() && !(wait_matches(ch[i], pid) && k.task(ch[i] as int).status is Zombie) {
        lemma_first_zombie_match(k, ch, pid, i + 1);
    }
}

/// Polls for a terminated child.  With no matching child at all the result
/// is -1; with matching children that are all still live it is -2; otherwise
/// the first matching zombie child is reaped: its exit code is written to
/// `exit_code_out`, its record is destroyed (the parent's list was its sole
/// owner), and its pid is returned.  This never blocks.
#[verifier::rlimit(80)]
pub fn sys_waitpid(k: &mut Kernel, pid: isize, exit_code_out: &mut i32) -> (r: isize)
    requires
        old(k).wf(),
        old(k).current is Some,
    ensures
        final(k).wf(),
        ({
            let c = old(k).cur();
            let ch = old(k).task(c).children@;
            let j = first_zombie_match(*old(k), ch, pid, 0);
            &&& ((forall|i: int| 0 <= i < ch.len() ==> !wait_matches(#[trigger] ch[i], pid)) ==> r
                == -1 && *final(k) == *old(k) && *final(exit_code_out) == *old(exit_code_out))
            &&& ((exists|i: int| 0 <= i < ch.len() && wait_matches(#[trigger] ch[i], pid)) && j
                == ch.len() ==> r == -2 && *final(k) == *old(k) && *final(exit_code_out) == *old(
                exit_code_out,
            ))
            &&& (j < ch.len() ==> {
                let reaped = ch[j];
                &&& r == reaped
                &&& *final(exit_code_out) == old(k).task(reaped as int).exit_code
                &&& final(k).tasks@ == old(k).tasks@.update(
                    c,
                    Some(
                        (TaskControlBlock {
                            children: final(k).task(c).children,
                            ..old(k).task(c)
                        }),
                    ),
                ).update(reaped as int, None)
                &&& final(k).task(c).children@ == ch.remove(j)
                &&& final(k).current == old(k).current
                &&& final(k).ready == old(k).ready
                &&& final(k).spaces == old(k).spaces
            })
        }),
{
    let ghost a = *old(k);
    let c = k.current.unwrap();
    proof {
        assert(a.task_ok(c as int));
    }
    let nch = k.tasks[c].as_ref().unwrap().children.len();
    let mut any_match = false;
    let mut zidx: usize = nch;
    let mut i: usize = 0;
    while i < nch
        invariant
            *k == a,
            a.wf(),
            a.current is Some,
            c == a.current.unwrap(),
            a.live(c as int),
            a.task_ok(c as int),
            nch == a.task(c as int).children@.len(),
            i <= nch,
            zidx <= nch,
            any_match == (exists|x: int|
                0 <= x < i && wait_matches(#[trigger] a.task(c as int).children@[x], pid)),
            zidx == nch ==> forall|x: int|
                0 <= x < i ==> !(wait_matches(#[trigger] a.task(c as int).children@[x], pid)
                    && a.task(a.task(c as int).children@[x] as int).status is Zombie),
            zidx < nch ==> zidx < i && wait_matches(a.task(c as int).children@[zidx as int], pid)
                && a.task(a.task(c as int).children@[zidx as int] as int).status is Zombie && (
            forall|x: int|
                0 <= x < zidx ==> !(wait_matches(#[trigger] a.task(c as int).children@[x], pid)
                    && a.task(a.task(c as int).children@[x] as int).status is Zombie)),
        decreases nch - i,
    {
        let child = k.tasks[c].as_ref().unwrap().children[i];
        let matches = pid == -1 || child as isize == pid;
        proof {
            assert(a.task(c as int).children@[i as int] == child);
            assert(a.live(child as int));
            assert(matches == wait_matches(child, pid));
        }
        if matches {
            any_match = true;
            if zidx == nch {
                let st = k.tasks[child].as_ref().unwrap().status;
                if st == TaskStatus::Zombie {
                    zidx = i;
                }
            }
        }
        i += 1;
    }
    proof {
        lemma_first_zombie_match(a, a.task(c as int).children@, pid, 0);
        let j = first_zombie_match(a, a.task(c as int).children@, pid, 0);
        if zidx < nch {
            if j < zidx {
                assert(!(wait_matches(a.task(c as int).children@[j], pid) && a.task(
                    a.task(c as int).children@[j] as int,
                ).status is Zombie));
            }
            assert(j == zidx);
        } else {
            assert(j == nch);
        }
    }
    if !any_match {
        return -1;
    }
    if zidx == nch {
        return -2;
    }
    let reaped = k.tasks[c].as_ref().unwrap().children[zidx];
    let code = k.tasks[reaped].as_ref().unwrap().exit_code;
    if let Some(t) = &mut k.tasks[c] {
        t.children.remove(zidx);
    }
    k.tasks[reaped] = None;
    *exit_code_out = code;
    proof {
        let b = *k;
        let ci = c as int;
        let ch = a.task(ci).children@;
        let ri = reaped as int;
        assert(ri != ci);
        assert(b.task(ci).children@ =~= ch.remove(zidx as int));
        assert forall|i2: int| b.live(i2) implies b.task_ok(i2) by {
            assert(a.task_ok(i2));
            assert(i2 != ri);
            assert forall|j: int| 0 <= j < b.task(i2).children@.len() implies b.live(
                (#[trigger] b.task(i2).children@[j]) as int,
            ) && b.task(b.task(i2).children@[j] as int).parent == Some(i2 as usize) by {
                let v = b.task(i2).children@[j];
                if i2 == ci {
                    assert(v == ch[if j < zidx {
                        j
                    } else {
                        j + 1
                    }]);
                } else {
                    assert(v == a.task(i2).children@[j]);
                }
                assert(a.live(v as int));
                assert(a.task(v as int).parent == Some(i2 as usize));
                assert(v != reaped);
            }
            assert forall|j: int, j2: int|
                0 <= j < j2 < b.task(i2).children@.len() implies b.task(i2).children@[j] != b.task(
                i2,
            ).children@[j2] by {
                if i2 == ci {
                    assert(b.task(i2).children@[j] == ch[if j < zidx {
                        j
                    } else {
                        j + 1
                    }]);
                    assert(b.task(i2).children@[j2] == ch[if j2 < zidx {
                        j2
                    } else {
                        j2 + 1
                    }]);
                }
            }
        }
        assert forall|i2: int, j: int|
            b.live(i2) && b.live(j) && i2 != j && !(b.task(i2).status is Zombie) && !(b.task(
                j,
            ).status is Zombie) implies (#[trigger] b.task(i2).space) != (
        #[trigger] b.task(j).space) by {
            assert(b.task(i2).space == a.task(i2).space);
            assert(b.task(j).space == a.task(j).space);
            assert(a.task(i2).space != a.task(j).space);
        }
        assert(queue_ok(b.ready.ready_queue@, b.tasks@)) by {
            assert forall|i2: int|
                0 <= i2 < b.ready.ready_queue@.len() implies (#[trigger] b.ready.ready_queue@[i2])
                < b.tasks@.len() && b.tasks@[b.ready.ready_queue@[i2] as int] is Some by {
                let v = b.ready.ready_queue@[i2];
                assert(a.task(v as int).status is Ready);
                assert(v != reaped);
            }
        }
        assert forall|i2: int| 0 <= i2 < b.ready.ready_queue@.len() implies b.task(
            (#[trigger] b.ready.ready_queue@[i2]) as int,
        ).status is Ready by {
            let v = b.ready.ready_queue@[i2];
            assert(a.task(v as int).status is Ready);
            assert(v != reaped);
        }
        assert(b.task(b.cur()).status is Running) by {
            assert(a.task(a.cur()).status is Running);
        }
    }
    reaped as isize
}

/// Replaces the running task's program: a fresh address space built from
/// the image takes the old one's place, while the pid, parent link,
/// children and file table are preserved.  With no loadable image the call
/// reports -1 to the caller and changes nothing.
pub fn sys_exec(k: &mut Kernel, image: Option<&ProgramImage>) -> (r: isize)
    requires
        old(k).wf(),
        old(k).current is Some,
        old(k).spaces@.len() < 0x7FFF_FFFF,
    ensures
        final(k).wf(),
        image is None ==> r == -1 && *final(k) == *old(k),
        image is Some ==> {
            let c = old(k).cur();
            let t = old(k).task(c);
            let img = *image.unwrap();
            &&& r == 0
            &&& final(k).task(c) == (TaskControlBlock {
                space: Some(old(k).spaces@.len() as usize),
                heap_bottom: img.base_size,
                program_brk: img.base_size,
                ..t
            })
            &&& final(k).spaces@.len() == old(k).spaces@.len() + 1
            &&& final(k).spaces@[t.space.unwrap() as int] is None
            &&& final(k).spaces@[old(k).spaces@.len() as int].unwrap().heap@.len() == 0
            &&& final(k).tasks@ == old(k).tasks@.update(c, final(k).tasks@[c])
            &&& final(k).current == old(k).current
            &&& final(k).ready == old(k).ready
        },
{
    let img = match image {
        Some(img) => *img,
        None => {
            return -1;
        },
    };
    let ghost a = *old(k);
    let c = k.current.unwrap();
    proof {
        assert(a.task_ok(c as int));
    }
    let nsp = k.spaces.len();
    let sp = k.tasks[c].as_ref().unwrap().space.unwrap();
    k.spaces[sp] = None;
    k.spaces.push(Some(AddrSpace { heap: Vec::new(), pages: Vec::new() }));
    if let Some(t) = &mut k.tasks[c] {
        t.space = Some(nsp);
        t.heap_bottom = img.base_size;
        t.program_brk = img.base_size;
    }
    proof {
        let b = *k;
        let ci = c as int;
        assert(b.tasks@ =~= a.tasks@.update(ci, b.tasks@[ci]));
        assert forall|i: int| b.live(i) implies b.task_ok(i) by {
            assert(a.task_ok(i));
            if i != ci && !(a.task(i).status is Zombie) {
                assert(a.task(i).space != a.task(ci).space);
            }
            assert forall|j: int| 0 <= j < b.task(i).children@.len() implies b.live(
                (#[trigger] b.task(i).children@[j]) as int,
            ) && b.task(b.task(i).children@[j] as int).parent == Some(i as usize) by {
                assert(a.live(a.task(i).children@[j] as int));
                if a.task(i).children@[j] as int == ci {
                    assert(a.task(ci).parent == Some(i as usize));
                }
            }
        }
        assert forall|i: int, j: int|
            b.live(i) && b.live(j) && i != j && !(b.task(i).status is Zombie) && !(b.task(j).status
                is Zombie) implies (#[trigger] b.task(i).space) != (#[trigger] b.task(j).space) by {
            if i != ci && j != ci {
                assert(b.task(i).space == a.task(i).space);
                assert(b.task(j).space == a.task(j).space);
                assert(a.task(i).space != a.task(j).space);
            } else {
                if i == ci && j != ci {
                    assert(a.task_ok(j));
                }
                if j == ci && i != ci {
                    assert(a.task_ok(i));
                }
            }
        }
        assert(queue_ok(b.ready.ready_queue@, b.tasks@));
        assert forall|i: int| 0 <= i < b.ready.ready_queue@.len() implies b.task(
            (#[trigger] b.ready.ready_queue@[i]) as int,
        ).status is Ready by {
            let v = b.ready.ready_queue@[i];
            assert(a.task(v as int).status is Ready);
            assert((v as int) != ci);
        }
        assert(b.task(b.cur()).status is Running) by {
            assert(a.task(a.cur()).status is Running);
        }
    }
    0
}

/// Creates a fresh child directly from a program image: no intermediate
/// duplicate address space is materialized.  The child inherits the
/// caller's file table and heap bounds (its heap reads as zeroes), starts
/// with the default priority and a zero stride, and enters the ready
/// queue.  With no loadable image the call reports -1 and changes nothing.
#[verifier::rlimit(80)]
pub fn sys_spawn(k: &mut Kernel, image: Option<&ProgramImage>) -> (r: isize)
    requires
        old(k).wf(),
        old(k).current is Some,
        old(k).tasks@.len() < 0x7FFF_FFFF,
        old(k).spaces@.len() < 0x7FFF_FFFF,
        old(k).task(old(k).cur()).program_brk - old(k).task(old(k).cur()).heap_bottom
            <= 0x1000_0000,
    ensures
        final(k).wf(),
        image is None ==> r == -1 && *final(k) == *old(k),
        image is Some ==> {
            let c = old(k).cur();
            let t = old(k).task(c);
            let child = old(k).tasks@.len() as int;
            let nsp = old(k).spaces@.len() as int;
            &&& r == child
            &&& final(k).tasks@.len() == child + 1
            &&& final(k).live(child)
            &&& final(k).task(child).status is Ready
            &&& final(k).task(child).pid == child
            &&& final(k).task(child).parent == Some(old(k).current.unwrap())
            &&& final(k).task(child).children@.len() == 0
            &&& final(k).task(child).fd_table@ == t.fd_table@
            &&& final(k).task(child).space == Some(nsp as usize)
            &&& final(k).task(child).heap_bottom == t.heap_bottom
            &&& final(k).task(child).program_brk == t.program_brk
            &&& final(k).task(child).stride == 0
            &&& final(k).task(child).priority == 16
            &&& (forall|i: int|
                0 <= i < t.program_brk - t.heap_bottom ==> final(k).spaces@[nsp].unwrap().heap@[i] == 0)
            &&& final(k).task(c) == (TaskControlBlock {
                children: final(k).task(c).children,
                ..t
            })
            &&& final(k).task(c).children@ == t.children@.push(child as usize)
            &&& final(k).ready.ready_queue@ == old(k).ready.ready_queue@.push(child as usize)
            &&& final(k).current == old(k).current
            &&& (forall|i: int|
                old(k).live(i) && i != c ==> (#[trigger] final(k).tasks@[i]) == old(k).tasks@[i])
        },
{
    let img = match image {
        Some(img) => *img,
        None => {
            return -1;
        },
    };
    let ghost a = *old(k);
    let c = k.current.unwrap();
    proof {
        assert(a.task_ok(c as int));
    }
    let child = k.tasks.len();
    let nsp = k.spaces.len();
    let parent_bottom = k.tasks[c].as_ref().unwrap().heap_bottom;
    let parent_brk = k.tasks[c].as_ref().unwrap().program_brk;
    let fd_table = copy_fd_table(&k.tasks[c].as_ref().unwrap().fd_table);
    let heap_len = parent_brk - parent_bottom;
    let mut newheap: Vec<u8> = Vec::new();
    while newheap.len() < heap_len
        invariant
            newheap@.len() <= heap_len,
            forall|j: int| 0 <= j < newheap@.len() ==> (#[trigger] newheap@[j]) == 0,
        decreases heap_len - newheap@.len(),
    {
        newheap.push(0);
    }
    let child_tcb = TaskControlBlock {
        pid: child,
        status: TaskStatus::Ready,
        parent: Some(c),
        children: Vec::new(),
        exit_code: 0,
        fd_table,
        space: Some(nsp),
        heap_bottom: parent_bottom,
        program_brk: parent_brk,
        stride: 0,
        priority: 16,
        pending_return: 0,
        start_time: 0,
        syscall_times: fresh_histogram(),
    };
    k.spaces.push(Some(AddrSpace { heap: newheap, pages: Vec::new() }));
    k.tasks.push(Some(child_tcb));
    if let Some(t) = &mut k.tasks[c] {
        t.children.push(child);
    }
    k.ready.add(child);
    proof {
        let b = *k;
        let ci = c as int;
        let chi = child as int;
        assert forall|i2: int| b.live(i2) implies b.task_ok(i2) by {
            if i2 == chi {
                assert(b.task(chi).pid == chi);
            } else {
                assert(a.task_ok(i2));
                assert forall|j: int| 0 <= j < b.task(i2).children@.len() implies b.live(
                    (#[trigger] b.task(i2).children@[j]) as int,
                ) && b.task(b.task(i2).children@[j] as int).parent == Some(i2 as usize) by {
                    if i2 == ci && j == b.task(i2).children@.len() - 1 {
                        assert(b.task(i2).children@[j] == child);
                    } else {
                        assert(b.task(i2).children@[j] == a.task(i2).children@[j]);
                        assert(a.live(a.task(i2).children@[j] as int));
                        assert((a.task(i2).children@[j] as int) != chi);
                    }
                }
                assert forall|j: int, j2: int|
                    0 <= j < j2 < b.task(i2).children@.len() implies b.task(i2).children@[j]
                    != b.task(i2).children@[j2] by {
                    if i2 == ci && j2 == b.task(i2).children@.len() - 1 {
                        assert(a.live(a.task(i2).children@[j] as int));
                    }
                }
            }
        }
        assert forall|i2: int, j: int|
            b.live(i2) && b.live(j) && i2 != j && !(b.task(i2).status is Zombie) && !(b.task(
                j,
            ).status is Zombie) implies (#[trigger] b.task(i2).space) != (
        #[trigger] b.task(j).space) by {
            if i2 != chi && j != chi {
                assert(b.task(i2).space == a.task(i2).space);
                assert(b.task(j).space == a.task(j).space);
                assert(a.task(i2).space != a.task(j).space);
            } else {
                if i2 == chi && j != chi {
                    assert(a.task_ok(j));
                }
                if j == chi && i2 != chi {
                    assert(a.task_ok(i2));
                }
            }
        }
        assert(queue_ok(b.ready.ready_queue@, b.tasks@));
        assert forall|i2: int| 0 <= i2 < b.ready.ready_queue@.len() implies b.task(
            (#[trigger] b.ready.ready_queue@[i2]) as int,
        ).status is Ready by {
            if i2 < a.ready.ready_queue@.len() {
                assert(a.task(a.ready.ready_queue@[i2] as int).status is Ready);
            }
        }
        assert forall|i2: int, j: int|
            0 <= i2 < j < b.ready.ready_queue@.len() implies b.ready.ready_queue@[i2]
            != b.ready.ready_queue@[j] by {
            if j == b.ready.ready_queue@.len() - 1 {
                assert((b.ready.ready_queue@[i2] as int) < a.tasks@.len());
            }
        }
        assert(b.task(ci).children@ =~= a.task(ci).children@.push(child));
    }
    child as isize
}

/// Fork isolation: a heap write performed by the running task changes only
/// its own address space; any other live, un-reaped task — in particular a
/// freshly forked child, or the parent seen from the child — keeps every
/// byte of its space unchanged.  Together with the fork contract (the child
/// owns a fresh space entry holding a copy of the parent's heap, and an
/// entry-for-entry identical table of shared file handles), writes on either
/// side of a fork are invisible on the other.
pub proof fn lemma_fork_isolation(pre: Kernel, post: Kernel, other: int)
    requires
        pre.wf(),
        pre.current is Some,
        !(pre.task(pre.cur()).status is Zombie),
        pre.live(other),
        other != pre.cur(),
        !(pre.task(other).status is Zombie),
        post.spaces@.len() == pre.spaces@.len(),
        forall|j: int|
            0 <= j < pre.spaces@.len() && j != pre.task(pre.cur()).space.unwrap() ==> (
            #[trigger] post.spaces@[j]) == pre.spaces@[j],
        post.tasks == pre.tasks,
    ensures
        post.spaces@[pre.task(other).space.unwrap() as int] == pre.spaces@[pre.task(
            other,
        ).space.unwrap() as int],
{
    assert(pre.task_ok(other));
    assert(pre.task(other).space != pre.task(pre.cur()).space);
}

} // verus!
