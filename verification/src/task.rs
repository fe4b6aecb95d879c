//! Control blocks: the record of one schedulable unit, its resources, and its
//! relationship to its parent and children, together with the model of an
//! address space that the lifecycle operations act on.

use vstd::prelude::*;

verus! {

/// Life-cycle state of a schedulable unit.
#[derive(Clone, Copy, PartialEq, Eq, Structural, Debug)]
pub enum TaskStatus {
    /// Runnable and sitting in the ready queue.
    Ready,
    /// The one unit currently using the processor.
    Running,
    /// Parked on a primitive or a timer.
    Blocked,
    /// Terminated; exit code preserved until the parent reaps it.
    Zombie,
}

/// One virtual-to-physical page mapping.
#[derive(Clone, Copy, PartialEq, Eq, Structural, Debug)]
pub struct PageMapping {
    /// Virtual page number.
    pub vpn: usize,
    /// Physical page number backing it.
    pub ppn: usize,
}

/// The model of one address space: the heap bytes between the heap's lower
/// bound and the program break, and the explicitly mapped pages.
pub struct AddrSpace {
    /// Byte `i` sits at address `heap_bottom + i`; the length always equals
    /// `program_brk - heap_bottom` of the owning task.
    pub heap: Vec<u8>,
    /// Pages mapped on demand; virtual page numbers are distinct.
    pub pages: Vec<PageMapping>,
}

/// What loading a program yields: the initial size of its static image (which
/// becomes the heap's lower bound) and its entry point.
#[derive(Clone, Copy, PartialEq, Eq, Structural, Debug)]
pub struct ProgramImage {
    /// End of the loaded image; the heap starts here.
    pub base_size: usize,
    /// First instruction to run.
    pub entry_point: usize,
}

/// The control block of one schedulable unit.
pub struct TaskControlBlock {
    /// Unique numeric id; equals this block's slot in the kernel's task table.
    pub pid: usize,
    /// Current life-cycle state.
    pub status: TaskStatus,
    /// Non-owning back-reference to the parent, used only for lookups.
    pub parent: Option<usize>,
    /// Ids of the children this block owns.
    pub children: Vec<usize>,
    /// Valid only once `status` is `Zombie`.
    pub exit_code: i32,
    /// Open-file table: shared file handles, copied on fork.
    pub fd_table: Vec<Option<usize>>,
    /// Slot of the owned address space; `None` once the space was released.
    pub space: Option<usize>,
    /// Lower bound of the heap.
    pub heap_bottom: usize,
    /// Current program break; never below `heap_bottom`.
    pub program_brk: usize,
    /// Stride accumulator of the scheduler.
    pub stride: u64,
    /// Scheduling priority; always at least 2.
    pub priority: usize,
    /// Value the unit receives when it is next dispatched (zero in a forked
    /// child).
    pub pending_return: isize,
    /// Time the unit was first scheduled, in milliseconds.
    pub start_time: usize,
    /// Per-task syscall-count histogram.
    pub syscall_times: Vec<u32>,
}

/// The process world: the task table (slot index = pid), the one running
/// task, the stride-scheduled ready queue, the address spaces, and the
/// clock.  All process-wide state is held here and passed explicitly.
pub struct Kernel {
    /// Control blocks by pid; a reaped slot stays vacant.
    pub tasks: Vec<Option<TaskControlBlock>>,
    /// Pid of the one running task, if any.
    pub current: Option<usize>,
    /// The stride scheduler's ready queue.
    pub ready: crate::sched::TaskManager,
    /// Address spaces by slot; released spaces stay vacant.
    pub spaces: Vec<Option<AddrSpace>>,
    /// Next unused physical page number.
    pub next_ppn: usize,
    /// The clock, in microseconds.
    pub time_us: usize,
}

impl Kernel {
    /// Table slot `i` holds a live control block.
    pub open spec fn live(self, i: int) -> bool {
        0 <= i < self.tasks@.len() && self.tasks@[i] is Some
    }

    /// The control block in slot `i`.
    pub open spec fn task(self, i: int) -> TaskControlBlock {
        self.tasks@[i].unwrap()
    }

    /// The running task's pid.
    pub open spec fn cur(self) -> int {
        self.current.unwrap() as int
    }

    /// One live control block is internally consistent with the table.
    pub open spec fn task_ok(self, i: int) -> bool {
        let t = self.task(i);
        &&& t.pid == i
        &&& t.priority >= 2
        &&& (t.status is Zombie ==> t.space is None && t.children@.len() == 0)
        &&& (!(t.status is Zombie) ==> t.space is Some && (t.space.unwrap() as int)
            < self.spaces@.len() && self.spaces@[t.space.unwrap() as int] is Some
            && self.spaces@[t.space.unwrap() as int].unwrap().wf(t.heap_bottom, t.program_brk))
        &&& (forall|j: int|
            0 <= j < t.children@.len() ==> self.live((#[trigger] t.children@[j]) as int)
                && self.task(t.children@[j] as int).parent == Some(i as usize))
        &&& (forall|j: int, j2: int|
            0 <= j < j2 < t.children@.len() ==> t.children@[j] != t.children@[j2])
    }

    /// Distinct live, un-reaped tasks own distinct address spaces.
    pub open spec fn spaces_disjoint(self) -> bool {
        forall|i: int, j: int|
            self.live(i) && self.live(j) && i != j && !(self.task(i).status is Zombie) && !(
            self.task(j).status is Zombie) ==> (#[trigger] self.task(i).space) != (
            #[trigger] self.task(j).space)
    }

    /// The whole process world is well formed.
    pub open spec fn wf(self) -> bool {
        &&& self.tasks@.len() <= 0x7FFF_FFFF
        &&& (forall|i: int| self.live(i) ==> self.task_ok(i))
        &&& self.spaces_disjoint()
        &&& (self.current is Some ==> self.live(self.cur()) && self.task(self.cur()).status
            is Running)
        &&& crate::sched::queue_ok(self.ready.ready_queue@, self.tasks@)
        &&& (forall|i: int|
            0 <= i < self.ready.ready_queue@.len() ==> self.task(
                (#[trigger] self.ready.ready_queue@[i]) as int,
            ).status is Ready)
        &&& (forall|i: int, j: int|
            0 <= i < j < self.ready.ready_queue@.len() ==> self.ready.ready_queue@[i]
                != self.ready.ready_queue@[j])
    }
}

impl AddrSpace {
    /// The address space is internally consistent for a task with the given
    /// heap bounds.
    pub open spec fn wf(self, heap_bottom: usize, program_brk: usize) -> bool {
        &&& heap_bottom <= program_brk
        &&& self.heap@.len() == program_brk - heap_bottom
        &&& forall|i: int, j: int|
            0 <= i < j < self.pages@.len() ==> (#[trigger] self.pages@[i]).vpn != (
            #[trigger] self.pages@[j]).vpn
    }

    /// Whether some page maps the given virtual page number.
    pub open spec fn maps(self, vpn: usize) -> bool {
        exists|i: int| 0 <= i < self.pages@.len() && (#[trigger] self.pages@[i]).vpn == vpn
    }

    /// The physical page number behind a mapped virtual page number.
    pub open spec fn ppn_of(self, vpn: usize) -> usize {
        self.pages@[choose|i: int|
            0 <= i < self.pages@.len() && (#[trigger] self.pages@[i]).vpn == vpn].ppn
    }
}

} // verus!
