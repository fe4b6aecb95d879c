//! Synchronization core of one process: mutexes (spin and blocking),
//! counting semaphores and condition variables, each owning a FIFO wait set
//! of blocked threads, together with the resource ledger (`need`,
//! `allocation`, `available`) and the deadlock detector that gates lock and
//! semaphore acquisition.
//!
//! Which thread of the process runs next is the stride scheduler's business
//! (see the scheduler module); here a thread is merely `Ready` (dispatchable)
//! or parked in exactly one wait set.  Every operation is a single atomic
//! kernel step taking the calling thread's id.
//!
//! Chosen commit semantics (the ledger and the primitive move together): a
//! request is committed — `available` decremented, the unit moved from `need`
//! to `allocation` — only when a unit is at hand; otherwise the caller parks
//! with its `need` outstanding, and a release hands the unit directly to the
//! first waiter (allocation transfer, `available` untouched).  A rejected or
//! invalid request leaves all bookkeeping exactly as it was.

use vstd::prelude::*;

use crate::ledger::col_total;
use crate::ledger::detect_safe;
use crate::ledger::bankers_safe;
use crate::ledger::rect;
use crate::ledger::mat_set;
use crate::ledger::lemma_col_total_set;
use crate::ledger::lemma_col_total_zero_col;
use crate::ledger::lemma_col_total_push_row;
use crate::ledger::lemma_col_total_prefix_eq;
use crate::ledger::lemma_entry_le_col_total;
use crate::ledger::lemma_two_entries_le_col_total;
use crate::ledger::lemma_col_total_nonneg;

verus! {

/// Distinguished sentinel returned when the detector predicts that granting
/// a lock or semaphore request could deadlock the process.
pub const DEADLOCK_SENTINEL: isize = -0xDEAD;

/// Run state of one thread of the process.  A thread is parked in at most
/// one wait set, named by its state.
#[derive(Clone, Copy, PartialEq, Eq, Structural, Debug)]
pub enum ThreadState {
    /// Dispatchable (or currently running).
    Ready,
    /// Parked in the wait set of the blocking mutex with this id.
    WaitingMutex(usize),
    /// Parked in the wait set of the semaphore with this id.
    WaitingSem(usize),
    /// Parked in the wait set of the condition variable with this id.
    WaitingCondvar(usize),
    /// Parked on the timer until its expiry entry fires.
    Sleeping,
}

/// A mutex: spin or blocking, selected at creation time.
#[verifier::ext_equal]
pub struct MutexState {
    /// Blocking variant parks contenders; the spin variant busy-waits.
    pub blocking: bool,
    /// Whether some thread holds the mutex.
    pub locked: bool,
    /// Parked contenders in arrival order (blocking variant only).
    pub wait_queue: Vec<usize>,
}

/// A counting semaphore.
#[verifier::ext_equal]
pub struct SemState {
    /// Remaining units; always equal to the ledger's `available` entry.
    pub count: usize,
    /// Parked takers in arrival order.
    pub wait_queue: Vec<usize>,
}

/// A condition variable: only a wait set.
#[verifier::ext_equal]
pub struct CondvarState {
    /// Parked waiters in arrival order.
    pub wait_queue: Vec<usize>,
}

/// One pending timer wake-up.
#[derive(Clone, Copy, PartialEq, Eq, Structural, Debug)]
pub struct SleepEntry {
    /// Absolute time at or after which the sleeper may wake.
    pub expiry_ms: usize,
    /// The sleeping thread.
    pub tid: usize,
}

/// A row of `k` zero entries.
pub open spec fn zero_row(k: int) -> Seq<usize> {
    Seq::new(k as nat, |j: int| 0usize)
}

/// The synchronization state of one process: its threads' run states, the
/// primitives it created, and the resource ledger over them.
#[verifier::ext_equal]
pub struct ProcSync {
    /// Run state per thread id.
    pub threads: Vec<ThreadState>,
    /// Mutexes by id; a slot is never destroyed once created.
    pub mutexes: Vec<Option<MutexState>>,
    /// Semaphores by id.
    pub semaphores: Vec<Option<SemState>>,
    /// Condition variables by id.
    pub condvars: Vec<Option<CondvarState>>,
    /// Free units per mutex (1 when unlocked, 0 when held).
    pub mutex_available: Vec<usize>,
    /// Outstanding mutex requests per thread and mutex.
    pub mutex_need: Vec<Vec<usize>>,
    /// Held mutex units per thread and mutex.
    pub mutex_allocation: Vec<Vec<usize>>,
    /// Free units per semaphore.
    pub sem_available: Vec<usize>,
    /// Total units per semaphore: the creation count, grown by releases of
    /// threads that held nothing (pure producers).
    pub sem_cap: Vec<usize>,
    /// Outstanding semaphore requests per thread and semaphore.
    pub sem_need: Vec<Vec<usize>>,
    /// Held semaphore units per thread and semaphore.
    pub sem_allocation: Vec<Vec<usize>>,
    /// Whether the safety simulation gates acquisition requests.
    pub deadlock_detect: bool,
    /// The clock, in milliseconds.
    pub now_ms: usize,
    /// Pending timer wake-ups.
    pub sleepers: Vec<SleepEntry>,
}

impl ProcSync {
    /// Number of threads.
    pub open spec fn n(self) -> int {
        self.threads@.len() as int
    }

    /// The mutex `need` matrix as a sequence of rows.
    pub open spec fn mtx_need_v(self) -> Seq<Seq<usize>> {
        self.mutex_need.deep_view()
    }

    /// The mutex `allocation` matrix as a sequence of rows.
    pub open spec fn mtx_alloc_v(self) -> Seq<Seq<usize>> {
        self.mutex_allocation.deep_view()
    }

    /// The semaphore `need` matrix as a sequence of rows.
    pub open spec fn sem_need_v(self) -> Seq<Seq<usize>> {
        self.sem_need.deep_view()
    }

    /// The semaphore `allocation` matrix as a sequence of rows.
    pub open spec fn sem_alloc_v(self) -> Seq<Seq<usize>> {
        self.sem_allocation.deep_view()
    }

    /// Ledger shapes: one row per thread, one column per resource instance.
    pub open spec fn shapes_ok(self) -> bool {
        let n = self.threads@.len() as int;
        let nm = self.mutexes@.len() as int;
        let ns = self.semaphores@.len() as int;
        &&& self.mutex_available@.len() == nm
        &&& self.mutex_need@.len() == n
        &&& self.mutex_allocation@.len() == n
        &&& rect(self.mtx_need_v(), nm)
        &&& rect(self.mtx_alloc_v(), nm)
        &&& self.sem_available@.len() == ns
        &&& self.sem_cap@.len() == ns
        &&& self.sem_need@.len() == n
        &&& self.sem_allocation@.len() == n
        &&& rect(self.sem_need_v(), ns)
        &&& rect(self.sem_alloc_v(), ns)
        &&& n <= 0x7FFF_FFFF
        &&& nm <= 0x7FFF_FFFF
        &&& ns <= 0x7FFF_FFFF
        &&& self.condvars@.len() <= 0x7FFF_FFFF
    }

    /// `w` is a well-parked contender of mutex `m`.
    pub open spec fn waiter_on_mutex(self, m: int, w: usize) -> bool {
        &&& (w as int) < self.n()
        &&& self.threads@[w as int] == ThreadState::WaitingMutex(m as usize)
    }

    /// `w` is a well-parked taker of semaphore `s`.
    pub open spec fn waiter_on_sem(self, s: int, w: usize) -> bool {
        &&& (w as int) < self.n()
        &&& self.threads@[w as int] == ThreadState::WaitingSem(s as usize)
    }

    /// Every pending timer entry names a distinct sleeping thread.
    pub open spec fn sleepers_ok(self) -> bool {
        &&& (forall|i: int|
            0 <= i < self.sleepers@.len() ==> (((#[trigger] self.sleepers@[i]).tid as int) < self.n()
                && self.threads@[self.sleepers@[i].tid as int] == ThreadState::Sleeping))
        &&& (forall|i: int, k: int|
            0 <= i < k < self.sleepers@.len() ==> self.sleepers@[i].tid != self.sleepers@[k].tid)
    }

    /// The process state is well formed.
    pub open spec fn wf(self) -> bool {
        &&& self.shapes_ok()
        &&& (forall|t: int| 0 <= t < self.n() ==> need_row_ok(self, t))
        &&& (forall|t: int| 0 <= t < self.n() ==> status_valid(self, t))
        &&& (forall|m: int| 0 <= m < self.mutexes@.len() ==> mutex_inv(self, m))
        &&& (forall|s: int| 0 <= s < self.semaphores@.len() ==> sem_inv(self, s))
        &&& (forall|c: int| 0 <= c < self.condvars@.len() ==> condvar_inv(self, c))
        &&& self.sleepers_ok()
    }

    /// A fresh process: one ready main thread, no primitives, detection off.
    pub fn new() -> (p: ProcSync)
        ensures
            p.wf(),
            p.threads@ =~= seq![ThreadState::Ready],
            p.mutexes@.len() == 0,
            p.semaphores@.len() == 0,
            p.condvars@.len() == 0,
            p.deadlock_detect == false,
            p.now_ms == 0,
            p.sleepers@.len() == 0,
    {
        let mut threads: Vec<ThreadState> = Vec::new();
        threads.push(ThreadState::Ready);
        let mut mutex_need: Vec<Vec<usize>> = Vec::new();
        mutex_need.push(Vec::new());
        let mut mutex_allocation: Vec<Vec<usize>> = Vec::new();
        mutex_allocation.push(Vec::new());
        let mut sem_need: Vec<Vec<usize>> = Vec::new();
        sem_need.push(Vec::new());
        let mut sem_allocation: Vec<Vec<usize>> = Vec::new();
        sem_allocation.push(Vec::new());
        let p = ProcSync {
            threads,
            mutexes: Vec::new(),
            semaphores: Vec::new(),
            condvars: Vec::new(),
            mutex_available: Vec::new(),
            mutex_need,
            mutex_allocation,
            sem_available: Vec::new(),
            sem_cap: Vec::new(),
            sem_need,
            sem_allocation,
            deadlock_detect: false,
            now_ms: 0,
            sleepers: Vec::new(),
        };
        proof {
            assert(p.mtx_need_v().len() == 1);
            assert(p.mtx_need_v()[0].len() == 0);
            assert(p.mtx_alloc_v().len() == 1);
            assert(p.mtx_alloc_v()[0].len() == 0);
            assert(p.sem_need_v().len() == 1);
            assert(p.sem_need_v()[0].len() == 0);
            assert(p.sem_alloc_v().len() == 1);
            assert(p.sem_alloc_v()[0].len() == 0);
        }
        p
    }

    /// Registers one more thread of the process: a fresh id in the `Ready`
    /// state with zeroed ledger rows.
    pub fn thread_create(&mut self) -> (tid: usize)
        requires
            old(self).wf(),
            old(self).threads@.len() < 0x7FFF_FFFF,
        ensures
            final(self).wf(),
            tid as int == old(self).threads@.len(),
            final(self).threads@ == old(self).threads@.push(ThreadState::Ready),
            final(self).mtx_need_v() == old(self).mtx_need_v().push(
                zero_row(old(self).mutexes@.len() as int),
            ),
            final(self).mtx_alloc_v() == old(self).mtx_alloc_v().push(
                zero_row(old(self).mutexes@.len() as int),
            ),
            final(self).sem_need_v() == old(self).sem_need_v().push(
                zero_row(old(self).semaphores@.len() as int),
            ),
            final(self).sem_alloc_v() == old(self).sem_alloc_v().push(
                zero_row(old(self).semaphores@.len() as int),
            ),
            final(self).mutexes == old(self).mutexes,
            final(self).semaphores == old(self).semaphores,
            final(self).condvars == old(self).condvars,
            final(self).mutex_available == old(self).mutex_available,
            final(self).sem_available == old(self).sem_available,
            final(self).sem_cap == old(self).sem_cap,
            final(self).deadlock_detect == old(self).deadlock_detect,
            final(self).now_ms == old(self).now_ms,
            final(self).sleepers == old(self).sleepers,
    {
        let ghost old_p = *self;
        let tid = self.threads.len();
        self.threads.push(ThreadState::Ready);
        let nm = self.mutexes.len();
        let ns = self.semaphores.len();
        self.mutex_need.push(zero_vec(nm));
        self.mutex_allocation.push(zero_vec(nm));
        self.sem_need.push(zero_vec(ns));
        self.sem_allocation.push(zero_vec(ns));
        proof {
            assert(self.mtx_need_v() =~~= old_p.mtx_need_v().push(zero_row(nm as int)));
            assert(self.mtx_alloc_v() =~~= old_p.mtx_alloc_v().push(zero_row(nm as int)));
            assert(self.sem_need_v() =~~= old_p.sem_need_v().push(zero_row(ns as int)));
            assert(self.sem_alloc_v() =~~= old_p.sem_alloc_v().push(zero_row(ns as int)));
            assert forall|t: int|
                0 <= t < self.mtx_need_v().len() implies (#[trigger] self.mtx_need_v()[t]).len()
                == nm && self.mtx_alloc_v()[t].len() == nm by {
                if t < old_p.n() {
                    assert(old_p.mtx_need_v()[t].len() == nm);
                    assert(old_p.mtx_alloc_v()[t].len() == nm);
                }
            }
            assert forall|t: int|
                0 <= t < self.sem_need_v().len() implies (#[trigger] self.sem_need_v()[t]).len()
                == ns && self.sem_alloc_v()[t].len() == ns by {
                if t < old_p.n() {
                    assert(old_p.sem_need_v()[t].len() == ns);
                    assert(old_p.sem_alloc_v()[t].len() == ns);
                }
            }
            assert forall|t: int| 0 <= t < self.n() implies status_valid(*self, t) by {
                if t < old_p.n() {
                    assert(status_valid(old_p, t));
                }
            }
            assert forall|t: int| 0 <= t < self.n() implies need_row_ok(*self, t) by {
                if t < old_p.n() {
                    assert(need_row_ok(old_p, t));
                    assert(status_valid(old_p, t));
                    assert forall|r: int|
                        0 <= r < nm && self.threads@[t] != ThreadState::WaitingMutex(r as usize)
                        implies (#[trigger] self.mtx_need_v()[t][r]) == 0 by {
                        if r < old_p.mutexes@.len() {
                            assert(old_p.mtx_need_v()[t][r] == 0);
                        }
                    }
                    assert forall|r: int|
                        0 <= r < nm && self.threads@[t] == ThreadState::WaitingMutex(r as usize)
                        implies (#[trigger] self.mtx_need_v()[t][r]) == 1 by {
                        assert(old_p.mtx_need_v()[t][r] == 1);
                    }
                    assert forall|r: int|
                        0 <= r < ns && self.threads@[t] != ThreadState::WaitingSem(r as usize)
                        implies (#[trigger] self.sem_need_v()[t][r]) == 0 by {
                        if r < old_p.semaphores@.len() {
                            assert(old_p.sem_need_v()[t][r] == 0);
                        }
                    }
                    assert forall|r: int|
                        0 <= r < ns && self.threads@[t] == ThreadState::WaitingSem(r as usize)
                        implies (#[trigger] self.sem_need_v()[t][r]) == 1 by {
                        assert(old_p.sem_need_v()[t][r] == 1);
                    }
                } else {
                    assert forall|r: int| 0 <= r < nm implies (#[trigger] self.mtx_need_v()[t][r])
                        == 0 by {
                        assert(self.mtx_need_v()[t] == zero_row(nm as int));
                    }
                    assert forall|r: int| 0 <= r < ns implies (#[trigger] self.sem_need_v()[t][r])
                        == 0 by {
                        assert(self.sem_need_v()[t] == zero_row(ns as int));
                    }
                }
            }
            assert forall|m: int| 0 <= m < nm implies mutex_inv(*self, m) by {
                assert(mutex_inv(old_p, m));
                lemma_col_total_push_row(old_p.mtx_alloc_v(), zero_row(nm as int), m);
                match self.mutexes@[m] {
                    Some(mx) => {
                        assert forall|i: int|
                            0 <= i < mx.wait_queue@.len() implies self.waiter_on_mutex(
                            m,
                            #[trigger] mx.wait_queue@[i],
                        ) by {
                            assert(old_p.waiter_on_mutex(m, mx.wait_queue@[i]));
                        }
                    },
                    None => {
                        assert(self.mutex_available@[m] == 0);
                        assert forall|t: int|
                            0 <= t < self.n() implies (#[trigger] self.mtx_alloc_v()[t][m])
                            == 0 by {
                            if t < old_p.n() {
                                assert(old_p.mtx_alloc_v()[t][m] == 0);
                            }
                        }
                        assert forall|t: int|
                            0 <= t < self.n() implies (#[trigger] self.mtx_need_v()[t][m])
                            == 0 by {
                            if t < old_p.n() {
                                assert(old_p.mtx_need_v()[t][m] == 0);
                            }
                        }
                    },
                }
            }
            assert forall|s: int| 0 <= s < ns implies sem_inv(*self, s) by {
                assert(sem_inv(old_p, s));
                lemma_col_total_push_row(old_p.sem_alloc_v(), zero_row(ns as int), s);
                match self.semaphores@[s] {
                    Some(sm) => {
                        assert forall|i: int|
                            0 <= i < sm.wait_queue@.len() implies self.waiter_on_sem(
                            s,
                            #[trigger] sm.wait_queue@[i],
                        ) by {
                            assert(old_p.waiter_on_sem(s, sm.wait_queue@[i]));
                        }
                    },
                    None => {
                        assert(self.sem_available@[s] == 0);
                        assert(self.sem_cap@[s] == 0);
                        assert forall|t: int|
                            0 <= t < self.n() implies (#[trigger] self.sem_alloc_v()[t][s])
                            == 0 by {
                            if t < old_p.n() {
                                assert(old_p.sem_alloc_v()[t][s] == 0);
                            }
                        }
                        assert forall|t: int|
                            0 <= t < self.n() implies (#[trigger] self.sem_need_v()[t][s])
                            == 0 by {
                            if t < old_p.n() {
                                assert(old_p.sem_need_v()[t][s] == 0);
                            }
                        }
                    },
                }
            }
            assert forall|c: int| 0 <= c < self.condvars@.len() implies condvar_inv(*self, c) by {
                assert(condvar_inv(old_p, c));
                lemma_condvar_ok_carry(old_p, *self, c);
            }
            lemma_sleepers_carry(old_p, *self);
        }
        tid
    }
}

/// The `need` rows of thread `t` agree with its run state: one outstanding
/// unit for the resource it is parked on, nothing anywhere else.
pub open spec fn need_row_ok(p: ProcSync, t: int) -> bool {
    &&& (forall|r: int|
        0 <= r < p.mutexes@.len() && p.threads@[t] != ThreadState::WaitingMutex(r as usize) ==> (
        #[trigger] p.mtx_need_v()[t][r]) == 0)
    &&& (forall|r: int|
        0 <= r < p.mutexes@.len() && p.threads@[t] == ThreadState::WaitingMutex(r as usize) ==> (
        #[trigger] p.mtx_need_v()[t][r]) == 1)
    &&& (forall|r: int|
        0 <= r < p.semaphores@.len() && p.threads@[t] != ThreadState::WaitingSem(r as usize) ==> (
        #[trigger] p.sem_need_v()[t][r]) == 0)
    &&& (forall|r: int|
        0 <= r < p.semaphores@.len() && p.threads@[t] == ThreadState::WaitingSem(r as usize) ==> (
        #[trigger] p.sem_need_v()[t][r]) == 1)
}

/// A parked thread's state names an existing primitive.
pub open spec fn status_valid(p: ProcSync, t: int) -> bool {
    match p.threads@[t] {
        ThreadState::Ready => true,
        ThreadState::WaitingMutex(m) => (m as int) < p.mutexes@.len() && p.mutexes@[m as int]
            is Some,
        ThreadState::WaitingSem(sm) => (sm as int) < p.semaphores@.len() && p.semaphores@[sm as int]
            is Some,
        ThreadState::WaitingCondvar(c) => (c as int) < p.condvars@.len() && p.condvars@[c as int]
            is Some,
        ThreadState::Sleeping => true,
    }
}

/// Conservation and wait-set sanity of mutex `m`.
pub open spec fn mutex_inv(p: ProcSync, m: int) -> bool {

    if p.mutexes@[m] is Some {
        let mx = p.mutexes@[m].unwrap();
        &&& p.mutex_available@[m] == (if mx.locked {
            0usize
        } else {
            1usize
        })
        &&& col_total(p.mtx_alloc_v(), m) == (if mx.locked {
            1int
        } else {
            0int
        })
        &&& (!mx.locked ==> mx.wait_queue@.len() == 0)
        &&& (forall|i: int|
            0 <= i < mx.wait_queue@.len() ==> p.waiter_on_mutex(
                m,
                #[trigger] mx.wait_queue@[i],
            ))
        &&& (forall|i: int, k: int|
            0 <= i < k < mx.wait_queue@.len() ==> mx.wait_queue@[i] != mx.wait_queue@[k])
    } else {
        &&& p.mutex_available@[m] == 0
        &&& (forall|t: int| 0 <= t < p.n() ==> (#[trigger] p.mtx_alloc_v()[t][m]) == 0)
        &&& (forall|t: int| 0 <= t < p.n() ==> (#[trigger] p.mtx_need_v()[t][m]) == 0)
    }
}

/// Conservation and wait-set sanity of semaphore `s`.
pub open spec fn sem_inv(p: ProcSync, s: int) -> bool {

    if p.semaphores@[s] is Some {
        let sm = p.semaphores@[s].unwrap();
        &&& p.sem_available@[s] == sm.count
        &&& sm.count + col_total(p.sem_alloc_v(), s) == p.sem_cap@[s]
        &&& (sm.count > 0 ==> sm.wait_queue@.len() == 0)
        &&& (forall|i: int|
            0 <= i < sm.wait_queue@.len() ==> p.waiter_on_sem(
                s,
                #[trigger] sm.wait_queue@[i],
            ))
        &&& (forall|i: int, k: int|
            0 <= i < k < sm.wait_queue@.len() ==> sm.wait_queue@[i] != sm.wait_queue@[k])
    } else {
        &&& p.sem_available@[s] == 0
        &&& p.sem_cap@[s] == 0
        &&& (forall|t: int| 0 <= t < p.n() ==> (#[trigger] p.sem_alloc_v()[t][s]) == 0)
        &&& (forall|t: int| 0 <= t < p.n() ==> (#[trigger] p.sem_need_v()[t][s]) == 0)
    }
}

/// Wait-set sanity of condition variable `c`.
pub open spec fn condvar_inv(p: ProcSync, c: int) -> bool {

    if p.condvars@[c] is Some {
        let cv = p.condvars@[c].unwrap();
        &&& (forall|i: int|
            0 <= i < cv.wait_queue@.len() ==> ((#[trigger] cv.wait_queue@[i]) as int)
                < p.n() && p.threads@[cv.wait_queue@[i] as int]
                == ThreadState::WaitingCondvar(c as usize))
        &&& (forall|i: int, k: int|
            0 <= i < k < cv.wait_queue@.len() ==> cv.wait_queue@[i] != cv.wait_queue@[k])
    } else {
        true
    }
}

/// A vector of `k` zeroes.
fn zero_vec(k: usize) -> (v: Vec<usize>)
    ensures
        v@ == zero_row(k as int),
{
    let mut v: Vec<usize> = Vec::new();
    while v.len() < k
        invariant
            v@.len() <= k,
            forall|j: int| 0 <= j < v@.len() ==> (#[trigger] v@[j]) == 0,
        decreases k - v@.len(),
    {
        v.push(0);
    }
    proof {
        assert(v@ =~= zero_row(k as int));
    }
    v
}

/// Turns the deadlock detector on (1) or off (0) for future requests;
/// any other argument is an invalid-argument error that changes nothing.
pub fn sys_enable_deadlock_detect(p: &mut ProcSync, enabled: usize) -> (r: isize)
    requires
        old(p).wf(),
    ensures
        final(p).wf(),
        enabled == 1 ==> r == 0 && *final(p) == (ProcSync { deadlock_detect: true, ..*old(p) }),
        enabled == 0 ==> r == 0 && *final(p) == (ProcSync { deadlock_detect: false, ..*old(p) }),
        enabled > 1 ==> r == -1 && *final(p) == *old(p),
{
    let r: isize;
    if enabled == 1 {
        p.deadlock_detect = true;
        r = 0;
    } else if enabled == 0 {
        p.deadlock_detect = false;
        r = 0;
    } else {
        r = -1;
    }
    proof {
        lemma_wf_threads_step(*old(p), *p);
    }
    r
}

/// Parks the calling thread until the clock reaches `now_ms + ms`: registers
/// a deferred wake-up entry and blocks the caller.
pub fn sys_sleep(p: &mut ProcSync, tid: usize, ms: usize) -> (r: isize)
    requires
        old(p).wf(),
        (tid as int) < old(p).threads@.len(),
        old(p).threads@[tid as int] == ThreadState::Ready,
        old(p).now_ms + ms <= usize::MAX,
    ensures
        r == 0,
        final(p).wf(),
        final(p).threads@ == old(p).threads@.update(tid as int, ThreadState::Sleeping),
        final(p).sleepers@ == old(p).sleepers@.push(
            SleepEntry { expiry_ms: (old(p).now_ms + ms) as usize, tid },
        ),
        *final(p) == (ProcSync {
            threads: final(p).threads,
            sleepers: final(p).sleepers,
            ..*old(p)
        }),
{
    let expiry = p.now_ms + ms;
    p.sleepers.push(SleepEntry { expiry_ms: expiry, tid });
    p.threads[tid] = ThreadState::Sleeping;
    proof {
        assert(p.sleepers@ == old(p).sleepers@.push(SleepEntry { expiry_ms: expiry, tid }));
        lemma_wf_threads_step(*old(p), *p);
    }
    0
}

/// Advances the clock and wakes every sleeper whose expiry has been reached;
/// a sleeper wakes only at or after its expiry.
pub fn timer_advance(p: &mut ProcSync, now: usize)
    requires
        old(p).wf(),
        now >= old(p).now_ms,
    ensures
        final(p).wf(),
        final(p).now_ms == now,
        final(p).sleepers@ == old(p).sleepers@.filter(|e: SleepEntry| e.expiry_ms > now),
        forall|i: int|
            0 <= i < old(p).sleepers@.len() && (#[trigger] old(p).sleepers@[i]).expiry_ms <= now
                ==> final(p).threads@[old(p).sleepers@[i].tid as int] == ThreadState::Ready,
        forall|t: int|
            0 <= t < old(p).threads@.len() && final(p).threads@[t] != old(p).threads@[t]
                ==> old(p).threads@[t] == ThreadState::Sleeping && final(p).threads@[t]
                == ThreadState::Ready,
        final(p).threads@.len() == old(p).threads@.len(),
        *final(p) == (ProcSync {
            threads: final(p).threads,
            sleepers: final(p).sleepers,
            now_ms: now,
            ..*old(p)
        }),
{
    p.now_ms = now;
    let ghost old_p = *old(p);
    let ghost pred = (|e: SleepEntry| e.expiry_ms > now);
    let mut kept: Vec<SleepEntry> = Vec::new();
    let mut i: usize = 0;
    while i < p.sleepers.len()
        invariant
            old_p.wf(),
            now >= old_p.now_ms,
            i <= p.sleepers@.len(),
            pred == (|e: SleepEntry| e.expiry_ms > now),
            p.sleepers == old_p.sleepers,
            p.mutexes == old_p.mutexes,
            p.semaphores == old_p.semaphores,
            p.condvars == old_p.condvars,
            p.mutex_available == old_p.mutex_available,
            p.mutex_need == old_p.mutex_need,
            p.mutex_allocation == old_p.mutex_allocation,
            p.sem_available == old_p.sem_available,
            p.sem_cap == old_p.sem_cap,
            p.sem_need == old_p.sem_need,
            p.sem_allocation == old_p.sem_allocation,
            p.deadlock_detect == old_p.deadlock_detect,
            p.now_ms == now,
            kept@ == old_p.sleepers@.take(i as int).filter(pred),
            p.threads@.len() == old_p.threads@.len(),
            forall|k: int|
                0 <= k < i && (#[trigger] old_p.sleepers@[k]).expiry_ms <= now ==> p.threads@[
                    old_p.sleepers@[k].tid as int] == ThreadState::Ready,
            forall|k: int|
                0 <= k < i && (#[trigger] old_p.sleepers@[k]).expiry_ms > now ==> p.threads@[
                    old_p.sleepers@[k].tid as int] == ThreadState::Sleeping,
            forall|k: int|
                i <= k < old_p.sleepers@.len() ==> p.threads@[(
                #[trigger] old_p.sleepers@[k]).tid as int] == ThreadState::Sleeping,
            forall|t: int|
                0 <= t < old_p.threads@.len() && p.threads@[t] != old_p.threads@[t] ==> old_p
                    .threads@[t] == ThreadState::Sleeping && p.threads@[t] == ThreadState::Ready,
        decreases p.sleepers@.len() - i,
    {
        let e = p.sleepers[i];
        proof {
            assert(old_p.sleepers@.take(i as int + 1) =~= old_p.sleepers@.take(i as int).push(e));
            old_p.sleepers@.take(i as int).lemma_filter_push(e, pred);
        }
        if e.expiry_ms <= now {
            p.threads[e.tid] = ThreadState::Ready;
        } else {
            kept.push(e);
        }
        i += 1;
    }
    proof {
        assert(old_p.sleepers@.take(old_p.sleepers@.len() as int) =~= old_p.sleepers@);
    }
    p.sleepers = kept;
    proof {
        let q = *p;
        lemma_sleep_filter_ok(old_p.sleepers@, pred);
        assert forall|j: int| 0 <= j < q.sleepers@.len() implies ((#[trigger] q.sleepers@[j]).tid
            as int) < q.n() && q.threads@[q.sleepers@[j].tid as int] == ThreadState::Sleeping by {
            let k = choose|k: int|
                0 <= k < old_p.sleepers@.len() && old_p.sleepers@[k] == q.sleepers@[j];
            old_p.sleepers@.lemma_filter_pred(pred, j);
            assert(old_p.sleepers@[k].expiry_ms > now);
        }
        assert(q.mtx_alloc_v() == old_p.mtx_alloc_v());
        assert(q.mtx_need_v() == old_p.mtx_need_v());
        assert(q.sem_alloc_v() == old_p.sem_alloc_v());
        assert(q.sem_need_v() == old_p.sem_need_v());
        assert forall|t: int| 0 <= t < q.n() implies status_valid(q, t) && need_row_ok(q, t) by {
            assert(status_valid(old_p, t));
            lemma_need_row_carry(old_p, q, t);
        }
        assert forall|m: int| 0 <= m < q.mutexes@.len() implies mutex_inv(q, m) by {
            assert(mutex_inv(old_p, m));
            lemma_mutex_ok_carry(old_p, q, m);
        }
        assert forall|s: int| 0 <= s < q.semaphores@.len() implies sem_inv(q, s) by {
            assert(sem_inv(old_p, s));
            lemma_sem_ok_carry(old_p, q, s);
        }
        assert forall|c: int| 0 <= c < q.condvars@.len() implies condvar_inv(q, c) by {
            assert(condvar_inv(old_p, c));
            lemma_condvar_ok_carry(old_p, q, c);
        }
    }
}

/// A thread's need-row discipline and state validity carry over a step that
/// leaves the ledger and the primitive lists alone and moves the thread only
/// between the runnable and sleeping states.
proof fn lemma_need_row_carry(a: ProcSync, b: ProcSync, t: int)
    requires
        0 <= t < a.n(),
        need_row_ok(a, t),
        status_valid(a, t),
        b.mutexes@.len() == a.mutexes@.len(),
        b.semaphores@.len() == a.semaphores@.len(),
        b.condvars@.len() >= a.condvars@.len(),
        forall|j: int|
            0 <= j < a.mutexes@.len() && (#[trigger] a.mutexes@[j]) is Some ==> b.mutexes@[j]
                is Some,
        forall|j: int|
            0 <= j < a.semaphores@.len() && (#[trigger] a.semaphores@[j]) is Some
                ==> b.semaphores@[j] is Some,
        forall|j: int|
            0 <= j < a.condvars@.len() && (#[trigger] a.condvars@[j]) is Some ==> b.condvars@[j]
                is Some,
        b.mtx_need_v() == a.mtx_need_v(),
        b.sem_need_v() == a.sem_need_v(),
        b.threads@[t] == a.threads@[t] || ((a.threads@[t] == ThreadState::Ready || a.threads@[t]
            == ThreadState::Sleeping || a.threads@[t] is WaitingCondvar) && (b.threads@[t]
            == ThreadState::Ready || b.threads@[t] == ThreadState::Sleeping)),
    ensures
        need_row_ok(b, t),
        status_valid(b, t),
{
    assert forall|r: int|
        0 <= r < b.mutexes@.len() && b.threads@[t] != ThreadState::WaitingMutex(r as usize)
        implies (#[trigger] b.mtx_need_v()[t][r]) == 0 by {
        assert(a.mtx_need_v()[t][r] == 0);
    }
    assert forall|r: int|
        0 <= r < b.mutexes@.len() && b.threads@[t] == ThreadState::WaitingMutex(r as usize)
        implies (#[trigger] b.mtx_need_v()[t][r]) == 1 by {
        assert(a.mtx_need_v()[t][r] == 1);
    }
    assert forall|r: int|
        0 <= r < b.semaphores@.len() && b.threads@[t] != ThreadState::WaitingSem(r as usize)
        implies (#[trigger] b.sem_need_v()[t][r]) == 0 by {
        assert(a.sem_need_v()[t][r] == 0);
    }
    assert forall|r: int|
        0 <= r < b.semaphores@.len() && b.threads@[t] == ThreadState::WaitingSem(r as usize)
        implies (#[trigger] b.sem_need_v()[t][r]) == 1 by {
        assert(a.sem_need_v()[t][r] == 1);
    }
}

/// `mutex_ok` carries from `a` to `b` when mutex `m`'s slot, bookkeeping
/// column and parked contenders are untouched (new threads may exist with
/// zeroed entries).
proof fn lemma_mutex_ok_carry(a: ProcSync, b: ProcSync, m: int)
    requires
        0 <= m < a.mutexes@.len(),
        mutex_inv(a, m),
        m < b.mutexes@.len(),
        b.mutexes@[m] == a.mutexes@[m],
        b.mutex_available@[m] == a.mutex_available@[m],
        col_total(b.mtx_alloc_v(), m) == col_total(a.mtx_alloc_v(), m),
        b.n() == a.n(),
        forall|t: int| 0 <= t < b.n() ==> (#[trigger] b.mtx_need_v()[t][m]) == a.mtx_need_v()[t][m],
        forall|t: int|
            0 <= t < b.n() ==> (#[trigger] b.mtx_alloc_v()[t][m]) == a.mtx_alloc_v()[t][m],
        forall|t: int|
            0 <= t < a.n() && (#[trigger] a.threads@[t]) == ThreadState::WaitingMutex(m as usize)
                ==> b.threads@[t] == a.threads@[t],
    ensures
        mutex_inv(b, m),
{
    if b.mutexes@[m] is Some {
        let mx = b.mutexes@[m].unwrap();
        {
            assert(a.mutexes@[m].unwrap() == mx);
            assert(b.mutex_available@[m] == (if mx.locked { 0usize } else { 1usize }));
            assert(col_total(b.mtx_alloc_v(), m) == (if mx.locked { 1int } else { 0int }));
            assert(!mx.locked ==> mx.wait_queue@.len() == 0);
            assert forall|i: int| 0 <= i < mx.wait_queue@.len() implies b.waiter_on_mutex(
                m,
                #[trigger] mx.wait_queue@[i],
            ) by {
                assert(a.waiter_on_mutex(m, mx.wait_queue@[i]));
            }
            assert forall|i: int, k: int| 0 <= i < k < mx.wait_queue@.len() implies mx.wait_queue@[i]
                != mx.wait_queue@[k] by {
                assert(a.mutexes@[m].unwrap().wait_queue@[i] == mx.wait_queue@[i]);
                assert(a.mutexes@[m].unwrap().wait_queue@[k] == mx.wait_queue@[k]);
            }
            assert(mutex_inv(b, m));
        }
    } else {
        {
            assert(a.mutexes@[m] is None);
            assert(b.mutex_available@[m] == 0);
            assert forall|t: int| 0 <= t < b.n() implies (#[trigger] b.mtx_alloc_v()[t][m])
                == 0 by {
                assert(b.mtx_alloc_v()[t][m] == a.mtx_alloc_v()[t][m]);
                assert(a.mtx_alloc_v()[t][m] == 0);
            }
            assert forall|t: int| 0 <= t < b.n() implies (#[trigger] b.mtx_need_v()[t][m])
                == 0 by {
                assert(b.mtx_need_v()[t][m] == a.mtx_need_v()[t][m]);
                assert(a.mtx_need_v()[t][m] == 0);
            }
            assert(mutex_inv(b, m));
        }
    }
}

/// `sem_ok` carries from `a` to `b` under the same conditions for
/// semaphore `s`.
proof fn lemma_sem_ok_carry(a: ProcSync, b: ProcSync, s: int)
    requires
        0 <= s < a.semaphores@.len(),
        sem_inv(a, s),
        s < b.semaphores@.len(),
        b.semaphores@[s] == a.semaphores@[s],
        b.sem_available@[s] == a.sem_available@[s],
        b.sem_cap@[s] == a.sem_cap@[s],
        col_total(b.sem_alloc_v(), s) == col_total(a.sem_alloc_v(), s),
        b.n() == a.n(),
        forall|t: int| 0 <= t < b.n() ==> (#[trigger] b.sem_need_v()[t][s]) == a.sem_need_v()[t][s],
        forall|t: int|
            0 <= t < b.n() ==> (#[trigger] b.sem_alloc_v()[t][s]) == a.sem_alloc_v()[t][s],
        forall|t: int|
            0 <= t < a.n() && (#[trigger] a.threads@[t]) == ThreadState::WaitingSem(s as usize)
                ==> b.threads@[t] == a.threads@[t],
    ensures
        sem_inv(b, s),
{
    match b.semaphores@[s] {
        Some(sm) => {
            assert(a.semaphores@[s].unwrap() == sm);
            assert(b.sem_available@[s] == sm.count);
            assert(sm.count + col_total(b.sem_alloc_v(), s) == b.sem_cap@[s]);
            assert(sm.count > 0 ==> sm.wait_queue@.len() == 0);
            assert forall|i: int| 0 <= i < sm.wait_queue@.len() implies b.waiter_on_sem(
                s,
                #[trigger] sm.wait_queue@[i],
            ) by {
                assert(a.waiter_on_sem(s, sm.wait_queue@[i]));
            }
            assert forall|i: int, k: int| 0 <= i < k < sm.wait_queue@.len() implies sm.wait_queue@[i]
                != sm.wait_queue@[k] by {
                assert(a.semaphores@[s].unwrap().wait_queue@[i] == sm.wait_queue@[i]);
                assert(a.semaphores@[s].unwrap().wait_queue@[k] == sm.wait_queue@[k]);
            }
            assert(sem_inv(b, s));
        },
        None => {
            assert(a.semaphores@[s] is None);
            assert(b.sem_available@[s] == 0);
            assert(b.sem_cap@[s] == 0);
            assert forall|t: int| 0 <= t < b.n() implies (#[trigger] b.sem_alloc_v()[t][s])
                == 0 by {
                assert(b.sem_alloc_v()[t][s] == a.sem_alloc_v()[t][s]);
                assert(a.sem_alloc_v()[t][s] == 0);
            }
            assert forall|t: int| 0 <= t < b.n() implies (#[trigger] b.sem_need_v()[t][s])
                == 0 by {
                assert(b.sem_need_v()[t][s] == a.sem_need_v()[t][s]);
                assert(a.sem_need_v()[t][s] == 0);
            }
            assert(sem_inv(b, s));
        },
    }
}

/// `condvar_ok` carries when the slot and its waiters' states are untouched.
proof fn lemma_condvar_ok_carry(a: ProcSync, b: ProcSync, c: int)
    requires
        0 <= c < a.condvars@.len(),
        condvar_inv(a, c),
        c < b.condvars@.len(),
        b.condvars@[c] == a.condvars@[c],
        b.n() >= a.n(),
        forall|t: int|
            0 <= t < a.n() && (#[trigger] a.threads@[t]) == ThreadState::WaitingCondvar(c as usize)
                ==> b.threads@[t] == a.threads@[t],
    ensures
        condvar_inv(b, c),
{
    match b.condvars@[c] {
        Some(cv) => {
            assert forall|i: int|
                0 <= i < cv.wait_queue@.len() implies (((#[trigger] cv.wait_queue@[i]) as int)
                < b.n() && b.threads@[cv.wait_queue@[i] as int] == ThreadState::WaitingCondvar(
                c as usize,
            )) by {
                assert(a.threads@[cv.wait_queue@[i] as int] == ThreadState::WaitingCondvar(
                    c as usize,
                ));
            }
        },
        None => {},
    }
}

/// `sleepers_ok` carries when the timer queue and its sleepers' states are
/// untouched.
proof fn lemma_sleepers_carry(a: ProcSync, b: ProcSync)
    requires
        a.sleepers_ok(),
        b.sleepers == a.sleepers,
        b.n() >= a.n(),
        forall|t: int|
            0 <= t < a.n() && (#[trigger] a.threads@[t]) is Sleeping ==> b.threads@[t]
                == a.threads@[t],
    ensures
        b.sleepers_ok(),
{
    assert forall|i: int| 0 <= i < b.sleepers@.len() implies (((#[trigger] b.sleepers@[i]).tid
        as int) < b.n() && b.threads@[b.sleepers@[i].tid as int] == ThreadState::Sleeping) by {
        assert(a.threads@[a.sleepers@[i].tid as int] == ThreadState::Sleeping);
    }
}

/// Well-formedness survives a step that leaves the primitives and the ledger
/// alone and only parks ready threads (at most one of them onto the timer
/// queue).
proof fn lemma_wf_threads_step(a: ProcSync, b: ProcSync)
    requires
        a.wf(),
        b.mutexes == a.mutexes,
        b.semaphores == a.semaphores,
        b.condvars == a.condvars,
        b.mutex_available == a.mutex_available,
        b.mutex_need == a.mutex_need,
        b.mutex_allocation == a.mutex_allocation,
        b.sem_available == a.sem_available,
        b.sem_cap == a.sem_cap,
        b.sem_need == a.sem_need,
        b.sem_allocation == a.sem_allocation,
        b.threads@.len() == a.threads@.len(),
        forall|t: int|
            0 <= t < a.threads@.len() ==> (#[trigger] b.threads@[t]) == a.threads@[t] || (
            a.threads@[t] == ThreadState::Ready && b.threads@[t] == ThreadState::Sleeping),
        b.sleepers == a.sleepers || (exists|e: SleepEntry|
            b.sleepers@ == a.sleepers@.push(e) && (e.tid as int) < b.threads@.len() && b.threads@[e.tid as int]
                == ThreadState::Sleeping && a.threads@[e.tid as int] == ThreadState::Ready),
    ensures
        b.wf(),
{
    assert(b.mtx_alloc_v() == a.mtx_alloc_v());
    assert(b.mtx_need_v() == a.mtx_need_v());
    assert(b.sem_alloc_v() == a.sem_alloc_v());
    assert(b.sem_need_v() == a.sem_need_v());
    assert forall|t: int| 0 <= t < b.n() implies status_valid(b, t) && need_row_ok(b, t) by {
        assert(status_valid(a, t));
        lemma_need_row_carry(a, b, t);
    }
    assert forall|m: int| 0 <= m < b.mutexes@.len() implies mutex_inv(b, m) by {
        assert(mutex_inv(a, m));
        lemma_mutex_ok_carry(a, b, m);
    }
    assert forall|s: int| 0 <= s < b.semaphores@.len() implies sem_inv(b, s) by {
        assert(sem_inv(a, s));
        lemma_sem_ok_carry(a, b, s);
    }
    assert forall|c: int| 0 <= c < b.condvars@.len() implies condvar_inv(b, c) by {
        assert(condvar_inv(a, c));
        lemma_condvar_ok_carry(a, b, c);
    }
    if b.sleepers == a.sleepers {
        assert(b.sleepers_ok());
    } else {
        let e = choose|e: SleepEntry|
            b.sleepers@ == a.sleepers@.push(e) && (e.tid as int) < b.threads@.len() && b.threads@[e.tid as int]
                == ThreadState::Sleeping && a.threads@[e.tid as int] == ThreadState::Ready;
        assert forall|i: int| 0 <= i < b.sleepers@.len() implies (((
        #[trigger] b.sleepers@[i]).tid as int) < b.n() && b.threads@[b.sleepers@[i].tid as int]
            == ThreadState::Sleeping) by {
            if i < a.sleepers@.len() {
                assert(a.threads@[a.sleepers@[i].tid as int] == ThreadState::Sleeping);
            }
        }
        assert forall|i: int, k: int| 0 <= i < k < b.sleepers@.len() implies b.sleepers@[i].tid
            != b.sleepers@[k].tid by {
            if k < a.sleepers@.len() {
            } else {
                if i < a.sleepers@.len() {
                    assert(a.threads@[a.sleepers@[i].tid as int] == ThreadState::Sleeping);
                }
            }
        }
    }
}

/// Whether a mutex id names a created mutex.
pub open spec fn mutex_valid(p: ProcSync, id: int) -> bool {
    0 <= id < p.mutexes@.len() && p.mutexes@[id] is Some
}

/// Whether a semaphore id names a created semaphore.
pub open spec fn sem_valid(p: ProcSync, id: int) -> bool {
    0 <= id < p.semaphores@.len() && p.semaphores@[id] is Some
}

/// Whether a condition-variable id names a created one.
pub open spec fn condvar_valid(p: ProcSync, id: int) -> bool {
    0 <= id < p.condvars@.len() && p.condvars@[id] is Some
}

/// Everything outside the mutex side of the state agrees between `a` and
/// `b`.
pub open spec fn outside_mutex_eq(a: ProcSync, b: ProcSync) -> bool {
    &&& b.semaphores == a.semaphores
    &&& b.sem_available == a.sem_available
    &&& b.sem_cap == a.sem_cap
    &&& b.sem_need == a.sem_need
    &&& b.sem_allocation == a.sem_allocation
    &&& b.condvars == a.condvars
    &&& b.deadlock_detect == a.deadlock_detect
    &&& b.now_ms == a.now_ms
    &&& b.sleepers == a.sleepers
}

/// Everything outside the semaphore side of the state agrees between `a`
/// and `b`.
pub open spec fn outside_sem_eq(a: ProcSync, b: ProcSync) -> bool {
    &&& b.mutexes == a.mutexes
    &&& b.mutex_available == a.mutex_available
    &&& b.mutex_need == a.mutex_need
    &&& b.mutex_allocation == a.mutex_allocation
    &&& b.condvars == a.condvars
    &&& b.deadlock_detect == a.deadlock_detect
    &&& b.now_ms == a.now_ms
    &&& b.sleepers == a.sleepers
}

/// The two states are indistinguishable: every field agrees (the `need`
/// matrices compared by contents).
pub open spec fn same_state(a: ProcSync, b: ProcSync) -> bool {
    &&& b.threads == a.threads
    &&& b.mutexes == a.mutexes
    &&& b.semaphores == a.semaphores
    &&& b.condvars == a.condvars
    &&& b.mutex_available == a.mutex_available
    &&& b.mtx_need_v() == a.mtx_need_v()
    &&& b.mutex_allocation == a.mutex_allocation
    &&& b.sem_available == a.sem_available
    &&& b.sem_cap == a.sem_cap
    &&& b.sem_need_v() == a.sem_need_v()
    &&& b.sem_allocation == a.sem_allocation
    &&& b.deadlock_detect == a.deadlock_detect
    &&& b.now_ms == a.now_ms
    &&& b.sleepers == a.sleepers
    &&& b.mutex_need@.len() == a.mutex_need@.len()
    &&& b.sem_need@.len() == a.sem_need@.len()
}

/// Well-formedness is a property of the state's contents alone.
proof fn lemma_wf_same_state(a: ProcSync, b: ProcSync)
    requires
        a.wf(),
        same_state(a, b),
    ensures
        b.wf(),
{
    assert forall|t: int| 0 <= t < b.n() implies need_row_ok(b, t) && status_valid(b, t) by {
        assert(need_row_ok(a, t));
        assert(status_valid(a, t));
        lemma_need_row_carry(a, b, t);
    }
    assert forall|m: int| 0 <= m < b.mutexes@.len() implies mutex_inv(b, m) by {
        assert(mutex_inv(a, m));
        lemma_mutex_ok_carry(a, b, m);
    }
    lemma_sem_side_carry(a, b);
    lemma_condvar_side_carry(a, b);
    lemma_sleepers_carry(a, b);
}

/// Whether granting `tid`'s outstanding request for mutex `id` would keep
/// every thread able to finish.
pub open spec fn mutex_request_safe(p: ProcSync, tid: int, id: int) -> bool {
    bankers_safe(mat_set(p.mtx_need_v(), tid, id, 1), p.mtx_alloc_v(), p.mutex_available@)
}

/// Whether granting `tid`'s outstanding request for semaphore `id` would
/// keep every thread able to finish.
pub open spec fn sem_request_safe(p: ProcSync, tid: int, id: int) -> bool {
    bankers_safe(mat_set(p.sem_need_v(), tid, id, 1), p.sem_alloc_v(), p.sem_available@)
}

/// Locks a mutex for the calling thread.  The request first passes the
/// ledger: `need` is raised and, when detection is enabled, the safety
/// simulation runs; an unsafe request is rejected with the sentinel and all
/// bookkeeping is exactly as before.  A safe request on a free mutex commits
/// (the unit moves from `need` to `allocation`, `available` drops to zero);
/// on a held blocking mutex the caller parks FIFO with its request
/// outstanding; on a held spin mutex the call returns with the state
/// unchanged, modeling one busy-wait iteration.
pub fn sys_mutex_lock(p: &mut ProcSync, tid: usize, mutex_id: usize) -> (r: isize)
    requires
        old(p).wf(),
        (tid as int) < old(p).n(),
        old(p).threads@[tid as int] == ThreadState::Ready,
    ensures
        final(p).wf(),
        !mutex_valid(*old(p), mutex_id as int) ==> r == -1 && *final(p) == *old(p),
        mutex_valid(*old(p), mutex_id as int) && old(p).deadlock_detect && !mutex_request_safe(
            *old(p),
            tid as int,
            mutex_id as int,
        ) ==> r == DEADLOCK_SENTINEL && same_state(*old(p), *final(p)),
        mutex_valid(*old(p), mutex_id as int) && (!old(p).deadlock_detect || mutex_request_safe(
            *old(p),
            tid as int,
            mutex_id as int,
        )) && !old(p).mutexes@[mutex_id as int].unwrap().locked ==> r == 0 && final(p).mutexes@
            == old(p).mutexes@.update(
            mutex_id as int,
            Some(
                (MutexState {
                    locked: true,
                    ..old(p).mutexes@[mutex_id as int].unwrap()
                }),
            ),
        ) && final(p).mutex_available@ == old(p).mutex_available@.update(mutex_id as int, 0usize)
            && final(p).mtx_alloc_v() == mat_set(
            old(p).mtx_alloc_v(),
            tid as int,
            mutex_id as int,
            1,
        ) && final(p).mtx_need_v() == old(p).mtx_need_v() && final(p).threads == old(p).threads
            && outside_mutex_eq(*old(p), *final(p)),
        mutex_valid(*old(p), mutex_id as int) && (!old(p).deadlock_detect || mutex_request_safe(
            *old(p),
            tid as int,
            mutex_id as int,
        )) && old(p).mutexes@[mutex_id as int].unwrap().locked && old(p).mutexes@[
            mutex_id as int].unwrap().blocking ==> r == 0 && final(p).mutexes@.len() == old(p).mutexes@.len() && final(p).mutexes@[mutex_id as int] is Some && final(p).mutexes@[
            mutex_id as int].unwrap().blocking && final(p).mutexes@[mutex_id as int].unwrap().locked
            && final(p).mutexes@[mutex_id as int].unwrap().wait_queue@ == old(p).mutexes@[
            mutex_id as int].unwrap().wait_queue@.push(tid) && (forall|j: int|
            0 <= j < old(p).mutexes@.len() && j != mutex_id ==> (#[trigger] final(p).mutexes@[j])
                == old(p).mutexes@[j]) && final(p).threads@ == old(p).threads@.update(
            tid as int,
            ThreadState::WaitingMutex(mutex_id),
        ) && final(p).mtx_need_v() == mat_set(old(p).mtx_need_v(), tid as int, mutex_id as int, 1)
            && final(p).mutex_available == old(p).mutex_available && final(p).mutex_allocation
            == old(p).mutex_allocation && outside_mutex_eq(*old(p), *final(p)),
        mutex_valid(*old(p), mutex_id as int) && (!old(p).deadlock_detect || mutex_request_safe(
            *old(p),
            tid as int,
            mutex_id as int,
        )) && old(p).mutexes@[mutex_id as int].unwrap().locked && !old(p).mutexes@[
            mutex_id as int].unwrap().blocking ==> r == 0 && same_state(*old(p), *final(p)),
{
    let ghost a = *old(p);
    if mutex_id >= p.mutexes.len() || p.mutexes[mutex_id].is_none() {
        return -1;
    }
    proof {
        assert(need_row_ok(a, tid as int));
        assert(a.mtx_need_v()[tid as int][mutex_id as int] == 0);
    }
    p.mutex_need[tid][mutex_id] = 1;
    proof {
        assert(p.mtx_need_v() =~~= mat_set(a.mtx_need_v(), tid as int, mutex_id as int, 1));
    }
    if p.deadlock_detect {
        proof {
            lemma_mutex_detector_pre(a);
            assert forall|t: int| 0 <= t < p.mtx_need_v().len() implies (
            #[trigger] p.mtx_need_v()[t]).len() == p.mutex_available@.len() by {
                assert(a.mtx_need_v()[t].len() == a.mutexes@.len());
            }
        }
        let safe = detect_safe(&p.mutex_available, &p.mutex_need, &p.mutex_allocation);
        if !safe {
            p.mutex_need[tid][mutex_id] = 0;
            proof {
                assert(p.mtx_need_v() =~~= a.mtx_need_v());
                lemma_wf_same_state(a, *p);
            }
            return DEADLOCK_SENTINEL;
        }
    }
    let locked = p.mutexes[mutex_id].as_ref().unwrap().locked;
    let blocking = p.mutexes[mutex_id].as_ref().unwrap().blocking;
    if !locked {
        if let Some(mx) = &mut p.mutexes[mutex_id] {
            mx.locked = true;
        }
        p.mutex_available[mutex_id] = 0;
        proof {
            assert(mutex_inv(a, mutex_id as int));
            lemma_entry_le_col_total(a.mtx_alloc_v(), tid as int, mutex_id as int);
            lemma_col_total_nonneg(a.mtx_alloc_v(), mutex_id as int);
            assert(a.mtx_alloc_v()[tid as int][mutex_id as int] == 0);
        }
        p.mutex_allocation[tid][mutex_id] = 1;
        p.mutex_need[tid][mutex_id] = 0;
        proof {
            let b = *p;
            assert(b.mtx_need_v() =~~= a.mtx_need_v());
            assert(b.mtx_alloc_v() =~~= mat_set(a.mtx_alloc_v(), tid as int, mutex_id as int, 1));
            assert(b.mutexes@ =~= a.mutexes@.update(
                mutex_id as int,
                Some((MutexState { locked: true, ..a.mutexes@[mutex_id as int].unwrap() })),
            ));
            assert(b.mutex_available@ =~= a.mutex_available@.update(mutex_id as int, 0usize));
            assert forall|t: int| 0 <= t < b.n() implies need_row_ok(b, t) && status_valid(
                b,
                t,
            ) by {
                assert(need_row_ok(a, t));
                assert(status_valid(a, t));
                lemma_need_row_carry(a, b, t);
            }
            assert forall|m: int| 0 <= m < b.mutexes@.len() implies mutex_inv(b, m) by {
                assert(mutex_inv(a, m));
                lemma_col_total_set(a.mtx_alloc_v(), tid as int, mutex_id as int, 1, m);
                if m != mutex_id as int {
                    lemma_mutex_ok_carry(a, b, m);
                }
            }
            lemma_sem_side_carry(a, b);
            lemma_condvar_side_carry(a, b);
            lemma_sleepers_carry(a, b);
        }
        0
    } else if blocking {
        if let Some(mx) = &mut p.mutexes[mutex_id] {
            mx.wait_queue.push(tid);
        }
        p.threads[tid] = ThreadState::WaitingMutex(mutex_id);
        proof {
            let b = *p;
            let mi = mutex_id as int;
            let ti = tid as int;
            assert(b.mtx_need_v() =~~= mat_set(a.mtx_need_v(), ti, mi, 1));
            assert(b.mtx_alloc_v() == a.mtx_alloc_v());
            assert forall|t: int| 0 <= t < b.n() implies need_row_ok(b, t) && status_valid(
                b,
                t,
            ) by {
                assert(need_row_ok(a, t));
                assert(status_valid(a, t));
                if t == ti {
                    assert forall|r: int|
                        0 <= r < b.mutexes@.len() && b.threads@[t] != ThreadState::WaitingMutex(
                            r as usize,
                        ) implies (#[trigger] b.mtx_need_v()[t][r]) == 0 by {
                        assert(a.mtx_need_v()[t][r] == 0);
                    }
                    assert forall|r: int|
                        0 <= r < b.semaphores@.len() && b.threads@[t] != ThreadState::WaitingSem(
                            r as usize,
                        ) implies (#[trigger] b.sem_need_v()[t][r]) == 0 by {
                        assert(a.sem_need_v()[t][r] == 0);
                    }
                } else {
                    assert forall|r: int|
                        0 <= r < b.mutexes@.len() && b.threads@[t] != ThreadState::WaitingMutex(
                            r as usize,
                        ) implies (#[trigger] b.mtx_need_v()[t][r]) == 0 by {
                        assert(a.mtx_need_v()[t][r] == 0);
                    }
                    assert forall|r: int|
                        0 <= r < b.mutexes@.len() && b.threads@[t] == ThreadState::WaitingMutex(
                            r as usize,
                        ) implies (#[trigger] b.mtx_need_v()[t][r]) == 1 by {
                        assert(a.mtx_need_v()[t][r] == 1);
                    }
                    assert forall|r: int|
                        0 <= r < b.semaphores@.len() && b.threads@[t] != ThreadState::WaitingSem(
                            r as usize,
                        ) implies (#[trigger] b.sem_need_v()[t][r]) == 0 by {
                        assert(a.sem_need_v()[t][r] == 0);
                    }
                    assert forall|r: int|
                        0 <= r < b.semaphores@.len() && b.threads@[t] == ThreadState::WaitingSem(
                            r as usize,
                        ) implies (#[trigger] b.sem_need_v()[t][r]) == 1 by {
                        assert(a.sem_need_v()[t][r] == 1);
                    }
                }
            }
            assert forall|m: int| 0 <= m < b.mutexes@.len() implies mutex_inv(b, m) by {
                assert(mutex_inv(a, m));
                if m == mi {
                    let mx = b.mutexes@[m].unwrap();
                    let oldmx = a.mutexes@[m].unwrap();
                    assert(mx.wait_queue@ == oldmx.wait_queue@.push(tid));
                    assert forall|i: int| 0 <= i < mx.wait_queue@.len() implies b.waiter_on_mutex(
                        m,
                        #[trigger] mx.wait_queue@[i],
                    ) by {
                        if i < oldmx.wait_queue@.len() {
                            assert(a.waiter_on_mutex(m, oldmx.wait_queue@[i]));
                        }
                    }
                    assert forall|i: int, k: int|
                        0 <= i < k < mx.wait_queue@.len() implies mx.wait_queue@[i]
                        != mx.wait_queue@[k] by {
                        if k == mx.wait_queue@.len() - 1 {
                            assert(a.waiter_on_mutex(m, oldmx.wait_queue@[i]));
                        }
                    }
                } else {
                    lemma_mutex_ok_carry(a, b, m);
                }
            }
            lemma_sem_side_carry(a, b);
            lemma_condvar_side_carry(a, b);
            lemma_sleepers_carry(a, b);
        }
        0
    } else {
        p.mutex_need[tid][mutex_id] = 0;
        proof {
            assert(p.mtx_need_v() =~~= a.mtx_need_v());
            lemma_wf_same_state(a, *p);
        }
        0
    }
}

/// Unlocks a mutex held by the calling thread.  With parked contenders the
/// unit is handed directly to the first waiter, which becomes ready holding
/// the mutex; otherwise the mutex becomes free again.  Unlocking a mutex the
/// caller does not hold is an error that changes nothing.
pub fn sys_mutex_unlock(p: &mut ProcSync, tid: usize, mutex_id: usize) -> (r: isize)
    requires
        old(p).wf(),
        (tid as int) < old(p).n(),
        old(p).threads@[tid as int] == ThreadState::Ready,
    ensures
        final(p).wf(),
        !mutex_valid(*old(p), mutex_id as int) || old(p).mtx_alloc_v()[tid as int][mutex_id as int]
            == 0 ==> r == -1 && *final(p) == *old(p),
        mutex_valid(*old(p), mutex_id as int) && old(p).mtx_alloc_v()[tid as int][mutex_id as int]
            >= 1 && old(p).mutexes@[mutex_id as int].unwrap().wait_queue@.len() == 0 ==> r == 0
            && final(p).mutexes@ == old(p).mutexes@.update(
            mutex_id as int,
            Some((MutexState { locked: false, ..old(p).mutexes@[mutex_id as int].unwrap() })),
        ) && final(p).mutex_available@ == old(p).mutex_available@.update(mutex_id as int, 1usize)
            && final(p).mtx_alloc_v() == mat_set(
            old(p).mtx_alloc_v(),
            tid as int,
            mutex_id as int,
            0,
        ) && final(p).mtx_need_v() == old(p).mtx_need_v() && final(p).threads == old(p).threads
            && outside_mutex_eq(*old(p), *final(p)),
        mutex_valid(*old(p), mutex_id as int) && old(p).mtx_alloc_v()[tid as int][mutex_id as int]
            >= 1 && old(p).mutexes@[mutex_id as int].unwrap().wait_queue@.len() > 0 ==> {
            let oldmx = old(p).mutexes@[mutex_id as int].unwrap();
            let w = oldmx.wait_queue@[0];
            &&& r == 0
            &&& final(p).mutexes@.len() == old(p).mutexes@.len()
            &&& final(p).mutexes@[mutex_id as int] is Some
            &&& final(p).mutexes@[mutex_id as int].unwrap().locked
            &&& final(p).mutexes@[mutex_id as int].unwrap().blocking == oldmx.blocking
            &&& final(p).mutexes@[mutex_id as int].unwrap().wait_queue@ == oldmx.wait_queue@.drop_first()
            &&& (forall|j: int|
                0 <= j < old(p).mutexes@.len() && j != mutex_id ==> (#[trigger] final(p).mutexes@[j]) == old(p).mutexes@[j])
            &&& final(p).threads@ == old(p).threads@.update(w as int, ThreadState::Ready)
            &&& final(p).mtx_need_v() == mat_set(old(p).mtx_need_v(), w as int, mutex_id as int, 0)
            &&& final(p).mtx_alloc_v() == mat_set(
                mat_set(old(p).mtx_alloc_v(), tid as int, mutex_id as int, 0),
                w as int,
                mutex_id as int,
                1,
            )
            &&& final(p).mutex_available == old(p).mutex_available
            &&& outside_mutex_eq(*old(p), *final(p))
        },
{
    let ghost a = *old(p);
    if mutex_id >= p.mutexes.len() || p.mutexes[mutex_id].is_none() {
        return -1;
    }
    proof {
        assert(a.mutex_allocation@[tid as int]@.len() == a.mutexes@.len()) by {
            assert(a.mtx_alloc_v()[tid as int].len() == a.mutexes@.len());
        }
    }
    if p.mutex_allocation[tid][mutex_id] == 0 {
        return -1;
    }
    proof {
        assert(mutex_inv(a, mutex_id as int));
        lemma_entry_le_col_total(a.mtx_alloc_v(), tid as int, mutex_id as int);
        lemma_col_total_nonneg(a.mtx_alloc_v(), mutex_id as int);
        assert(a.mutexes@[mutex_id as int].unwrap().locked);
        assert(a.mtx_alloc_v()[tid as int][mutex_id as int] == 1);
    }
    let has_waiter = p.mutexes[mutex_id].as_ref().unwrap().wait_queue.len() > 0;
    if !has_waiter {
        if let Some(mx) = &mut p.mutexes[mutex_id] {
            mx.locked = false;
        }
        p.mutex_available[mutex_id] = 1;
        p.mutex_allocation[tid][mutex_id] = 0;
        proof {
            let b = *p;
            let mi = mutex_id as int;
            assert(b.mtx_need_v() == a.mtx_need_v());
            assert(b.mtx_alloc_v() =~~= mat_set(a.mtx_alloc_v(), tid as int, mi, 0));
            assert(b.mutexes@ =~= a.mutexes@.update(
                mi,
                Some((MutexState { locked: false, ..a.mutexes@[mi].unwrap() })),
            ));
            assert(b.mutex_available@ =~= a.mutex_available@.update(mi, 1usize));
            assert forall|t: int| 0 <= t < b.n() implies need_row_ok(b, t) && status_valid(
                b,
                t,
            ) by {
                assert(need_row_ok(a, t));
                assert(status_valid(a, t));
                lemma_need_row_carry(a, b, t);
            }
            assert forall|m: int| 0 <= m < b.mutexes@.len() implies mutex_inv(b, m) by {
                assert(mutex_inv(a, m));
                lemma_col_total_set(a.mtx_alloc_v(), tid as int, mi, 0, m);
                if m != mi {
                    lemma_mutex_ok_carry(a, b, m);
                }
            }
            lemma_sem_side_carry(a, b);
            lemma_condvar_side_carry(a, b);
            lemma_sleepers_carry(a, b);
        }
        0
    } else {
        let mut w: usize = 0;
        if let Some(mx) = &mut p.mutexes[mutex_id] {
            w = mx.wait_queue.remove(0);
        }
        proof {
            assert(a.waiter_on_mutex(mutex_id as int, w));
            assert(need_row_ok(a, w as int));
            assert(a.mtx_need_v()[w as int][mutex_id as int] == 1);
            assert(a.mtx_alloc_v()[w as int][mutex_id as int] == 0) by {
                if a.mtx_alloc_v()[w as int][mutex_id as int] != 0 {
                    lemma_two_entries_le_col_total(a.mtx_alloc_v(), tid as int, w as int, mutex_id as int);
                }
            }
        }
        p.mutex_allocation[tid][mutex_id] = 0;
        p.mutex_allocation[w][mutex_id] = 1;
        p.mutex_need[w][mutex_id] = 0;
        p.threads[w] = ThreadState::Ready;
        proof {
            let b = *p;
            let mi = mutex_id as int;
            let ti = tid as int;
            let wi = w as int;
            let oldmx = a.mutexes@[mi].unwrap();
            assert(b.mtx_need_v() =~~= mat_set(a.mtx_need_v(), wi, mi, 0));
            assert(b.mtx_alloc_v() =~~= mat_set(mat_set(a.mtx_alloc_v(), ti, mi, 0), wi, mi, 1));
            assert(b.mutexes@[mi].unwrap().wait_queue@ == oldmx.wait_queue@.drop_first());
            assert(b.threads@ =~= a.threads@.update(wi, ThreadState::Ready));
            assert forall|t: int| 0 <= t < b.n() implies need_row_ok(b, t) && status_valid(
                b,
                t,
            ) by {
                assert(need_row_ok(a, t));
                assert(status_valid(a, t));
                assert forall|r: int|
                    0 <= r < b.mutexes@.len() && b.threads@[t] != ThreadState::WaitingMutex(
                        r as usize,
                    ) implies (#[trigger] b.mtx_need_v()[t][r]) == 0 by {
                    if !(t == wi && r == mi) {
                        assert(a.mtx_need_v()[t][r] == 0);
                    }
                }
                assert forall|r: int|
                    0 <= r < b.mutexes@.len() && b.threads@[t] == ThreadState::WaitingMutex(
                        r as usize,
                    ) implies (#[trigger] b.mtx_need_v()[t][r]) == 1 by {
                    assert(t != wi);
                    assert(a.mtx_need_v()[t][r] == 1);
                }
                assert forall|r: int|
                    0 <= r < b.semaphores@.len() && b.threads@[t] != ThreadState::WaitingSem(
                        r as usize,
                    ) implies (#[trigger] b.sem_need_v()[t][r]) == 0 by {
                    assert(a.sem_need_v()[t][r] == 0);
                }
                assert forall|r: int|
                    0 <= r < b.semaphores@.len() && b.threads@[t] == ThreadState::WaitingSem(
                        r as usize,
                    ) implies (#[trigger] b.sem_need_v()[t][r]) == 1 by {
                    assert(t != wi);
                    assert(a.sem_need_v()[t][r] == 1);
                }
            }
            assert forall|m: int| 0 <= m < b.mutexes@.len() implies mutex_inv(b, m) by {
                assert(mutex_inv(a, m));
                lemma_col_total_set(a.mtx_alloc_v(), ti, mi, 0, m);
                lemma_col_total_set(mat_set(a.mtx_alloc_v(), ti, mi, 0), wi, mi, 1, m);
                if m == mi {
                    let mx = b.mutexes@[m].unwrap();
                    assert forall|i: int| 0 <= i < mx.wait_queue@.len() implies b.waiter_on_mutex(
                        m,
                        #[trigger] mx.wait_queue@[i],
                    ) by {
                        assert(mx.wait_queue@[i] == oldmx.wait_queue@[i + 1]);
                        assert(a.waiter_on_mutex(m, oldmx.wait_queue@[i + 1]));
                        assert(oldmx.wait_queue@[i + 1] != w);
                    }
                    assert forall|i: int, k: int|
                        0 <= i < k < mx.wait_queue@.len() implies mx.wait_queue@[i]
                        != mx.wait_queue@[k] by {
                        assert(mx.wait_queue@[i] == oldmx.wait_queue@[i + 1]);
                        assert(mx.wait_queue@[k] == oldmx.wait_queue@[k + 1]);
                    }
                } else {
                    lemma_mutex_ok_carry(a, b, m);
                }
            }
            lemma_sem_side_carry(a, b);
            lemma_condvar_side_carry(a, b);
            lemma_sleepers_carry(a, b);
        }
        0
    }
}

/// Every semaphore invariant carries when the semaphore side is untouched.
proof fn lemma_sem_side_carry(a: ProcSync, b: ProcSync)
    requires
        forall|s: int| 0 <= s < a.semaphores@.len() ==> sem_inv(a, s),
        b.semaphores == a.semaphores,
        b.sem_available == a.sem_available,
        b.sem_cap == a.sem_cap,
        b.sem_need_v() == a.sem_need_v(),
        b.sem_alloc_v() == a.sem_alloc_v(),
        b.n() == a.n(),
        forall|t: int|
            0 <= t < a.n() && (#[trigger] a.threads@[t]) is WaitingSem ==> b.threads@[t]
                == a.threads@[t],
    ensures
        forall|s: int| 0 <= s < b.semaphores@.len() ==> sem_inv(b, s),
{
    assert forall|s: int| 0 <= s < b.semaphores@.len() implies sem_inv(b, s) by {
        assert(sem_inv(a, s));
        lemma_sem_ok_carry(a, b, s);
    }
}

/// Every mutex invariant carries when the mutex side is untouched.
proof fn lemma_mutex_side_carry(a: ProcSync, b: ProcSync)
    requires
        forall|m: int| 0 <= m < a.mutexes@.len() ==> mutex_inv(a, m),
        b.mutexes == a.mutexes,
        b.mutex_available == a.mutex_available,
        b.mtx_need_v() == a.mtx_need_v(),
        b.mtx_alloc_v() == a.mtx_alloc_v(),
        b.n() == a.n(),
        forall|t: int|
            0 <= t < a.n() && (#[trigger] a.threads@[t]) is WaitingMutex ==> b.threads@[t]
                == a.threads@[t],
    ensures
        forall|m: int| 0 <= m < b.mutexes@.len() ==> mutex_inv(b, m),
{
    assert forall|m: int| 0 <= m < b.mutexes@.len() implies mutex_inv(b, m) by {
        assert(mutex_inv(a, m));
        lemma_mutex_ok_carry(a, b, m);
    }
}

/// Every condition-variable invariant carries when that side is untouched.
proof fn lemma_condvar_side_carry(a: ProcSync, b: ProcSync)
    requires
        forall|c: int| 0 <= c < a.condvars@.len() ==> condvar_inv(a, c),
        b.condvars == a.condvars,
        b.n() == a.n(),
        forall|t: int|
            0 <= t < a.n() && (#[trigger] a.threads@[t]) is WaitingCondvar ==> b.threads@[t]
                == a.threads@[t],
    ensures
        forall|c: int| 0 <= c < b.condvars@.len() ==> condvar_inv(b, c),
{
    assert forall|c: int| 0 <= c < b.condvars@.len() implies condvar_inv(b, c) by {
        assert(condvar_inv(a, c));
        lemma_condvar_ok_carry(a, b, c);
    }
}

/// The mutex ledger admits the safety simulation: no column total can
/// overflow.
proof fn lemma_mutex_detector_pre(p: ProcSync)
    requires
        p.shapes_ok(),
        forall|m: int| 0 <= m < p.mutexes@.len() ==> mutex_inv(p, m),
    ensures
        forall|j: int|
            0 <= j < p.mutex_available@.len() ==> p.mutex_available@[j] + col_total(
                p.mtx_alloc_v(),
                j,
            ) <= usize::MAX,
{
    assert forall|j: int|
        0 <= j < p.mutex_available@.len() implies p.mutex_available@[j] + col_total(
        p.mtx_alloc_v(),
        j,
    ) <= usize::MAX by {
        assert(mutex_inv(p, j));
        if p.mutexes@[j] is None {
            lemma_col_total_zero_col(p.mtx_alloc_v(), j);
        }
    }
}

/// The semaphore ledger admits the safety simulation likewise.
proof fn lemma_sem_detector_pre(p: ProcSync)
    requires
        p.shapes_ok(),
        forall|s: int| 0 <= s < p.semaphores@.len() ==> sem_inv(p, s),
    ensures
        forall|j: int|
            0 <= j < p.sem_available@.len() ==> p.sem_available@[j] + col_total(p.sem_alloc_v(), j)
                <= usize::MAX,
{
    assert forall|j: int|
        0 <= j < p.sem_available@.len() implies p.sem_available@[j] + col_total(p.sem_alloc_v(), j)
        <= usize::MAX by {
        assert(sem_inv(p, j));
        if p.semaphores@[j] is None {
            lemma_col_total_zero_col(p.sem_alloc_v(), j);
        }
    }
}

/// Filtering a timer queue with pairwise-distinct thread ids keeps the ids
/// pairwise distinct, and every kept entry is one of the original entries.
proof fn lemma_sleep_filter_ok(s: Seq<SleepEntry>, pred: spec_fn(SleepEntry) -> bool)
    requires
        forall|i: int, k: int| 0 <= i < k < s.len() ==> s[i].tid != s[k].tid,
    ensures
        forall|j: int|
            0 <= j < s.filter(pred).len() ==> exists|k: int|
                0 <= k < s.len() && s[k] == #[trigger] s.filter(pred)[j],
        forall|j: int, jj: int|
            0 <= j < jj < s.filter(pred).len() ==> s.filter(pred)[j].tid != s.filter(pred)[jj].tid,
    decreases s.len(),
{
    reveal(Seq::filter);
    if s.len() > 0 {
        let sub = s.drop_last();
        lemma_sleep_filter_ok(sub, pred);
        assert forall|j: int| 0 <= j < sub.filter(pred).len() implies exists|k: int|
            0 <= k < s.len() && s[k] == #[trigger] sub.filter(pred)[j] by {
            let k = choose|k: int| 0 <= k < sub.len() && sub[k] == sub.filter(pred)[j];
            assert(s[k] == sub.filter(pred)[j]);
        }
        if pred(s.last()) {
            assert(s.filter(pred) == sub.filter(pred).push(s.last()));
            assert(s[s.len() - 1] == s.last());
            assert forall|j: int, jj: int|
                0 <= j < jj < s.filter(pred).len() implies s.filter(pred)[j].tid != s.filter(
                pred,
            )[jj].tid by {
                if jj == s.filter(pred).len() - 1 {
                    let k = choose|k: int| 0 <= k < sub.len() && sub[k] == sub.filter(pred)[j];
                    assert(s[k].tid != s[s.len() - 1].tid);
                }
            }
        }
    }
}

/// Creates a mutex of the chosen variant in the first free slot (or a fresh
/// one), marks it unlocked and registers one available unit in the ledger.
pub fn sys_mutex_create(p: &mut ProcSync, blocking: bool) -> (id: isize)
    requires
        old(p).wf(),
        old(p).mutexes@.len() < 0x7FFF_FFFF,
    ensures
        final(p).wf(),
        0 <= id <= old(p).mutexes@.len(),
        forall|j: int| 0 <= j < id ==> (#[trigger] old(p).mutexes@[j]) is Some,
        id < old(p).mutexes@.len() ==> old(p).mutexes@[id as int] is None,
        final(p).threads == old(p).threads,
        final(p).semaphores == old(p).semaphores,
        final(p).condvars == old(p).condvars,
        final(p).sem_available == old(p).sem_available,
        final(p).sem_cap == old(p).sem_cap,
        final(p).sem_need == old(p).sem_need,
        final(p).sem_allocation == old(p).sem_allocation,
        final(p).deadlock_detect == old(p).deadlock_detect,
        final(p).now_ms == old(p).now_ms,
        final(p).sleepers == old(p).sleepers,
        final(p).mutexes@.len() == (if id < old(p).mutexes@.len() {
            old(p).mutexes@.len() as int
        } else {
            (old(p).mutexes@.len() + 1) as int
        }),
        final(p).mutexes@[id as int] is Some,
        final(p).mutexes@[id as int].unwrap().blocking == blocking,
        final(p).mutexes@[id as int].unwrap().locked == false,
        final(p).mutexes@[id as int].unwrap().wait_queue@.len() == 0,
        final(p).mutex_available@[id as int] == 1,
        forall|j: int|
            0 <= j < old(p).mutexes@.len() && j != id ==> (#[trigger] final(p).mutexes@[j]) == old(p).mutexes@[j],
        forall|j: int|
            0 <= j < old(p).mutexes@.len() && j != id ==> (#[trigger] final(p).mutex_available@[j]) == old(p).mutex_available@[j],
        forall|t: int| 0 <= t < old(p).n() ==> (#[trigger] final(p).mtx_need_v()[t][id as int]) == 0,
        forall|t: int| 0 <= t < old(p).n() ==> (#[trigger] final(p).mtx_alloc_v()[t][id as int]) == 0,
        forall|t: int, j: int|
            0 <= t < old(p).n() && 0 <= j < old(p).mutexes@.len() && j != id ==> (
            #[trigger] final(p).mtx_need_v()[t][j]) == old(p).mtx_need_v()[t][j],
        forall|t: int, j: int|
            0 <= t < old(p).n() && 0 <= j < old(p).mutexes@.len() && j != id ==> (
            #[trigger] final(p).mtx_alloc_v()[t][j]) == old(p).mtx_alloc_v()[t][j],
{
    let ghost a = *old(p);
    let nm = p.mutexes.len();
    let mut i: usize = 0;
    let mut id: usize = nm;
    while i < nm
        invariant
            i <= nm,
            id <= nm,
            nm == p.mutexes@.len(),
            *p == a,
            id == nm ==> forall|j: int| 0 <= j < i ==> (#[trigger] p.mutexes@[j]) is Some,
            id < nm ==> p.mutexes@[id as int] is None && id < i && (forall|j: int|
                0 <= j < id ==> (#[trigger] p.mutexes@[j]) is Some),
        decreases nm - i,
    {
        if id == nm && p.mutexes[i].is_none() {
            id = i;
        }
        i += 1;
    }
    if id < nm {
        p.mutexes[id] = Some(MutexState { blocking, locked: false, wait_queue: Vec::new() });
        p.mutex_available[id] = 1;
        proof {
            let b = *p;
            assert(b.mtx_need_v() == a.mtx_need_v());
            assert(b.mtx_alloc_v() == a.mtx_alloc_v());
            assert(b.sem_need_v() == a.sem_need_v());
            assert(b.sem_alloc_v() == a.sem_alloc_v());
            assert forall|t: int| 0 <= t < b.n() implies need_row_ok(b, t) && status_valid(
                b,
                t,
            ) by {
                assert(need_row_ok(a, t));
                assert(status_valid(a, t));
                lemma_need_row_carry(a, b, t);
            }
            assert forall|m: int| 0 <= m < b.mutexes@.len() implies mutex_inv(b, m) by {
                assert(mutex_inv(a, m));
                if m == id {
                    lemma_col_total_zero_col(b.mtx_alloc_v(), m);
                } else {
                    lemma_mutex_ok_carry(a, b, m);
                }
            }
            lemma_sem_side_carry(a, b);
            lemma_condvar_side_carry(a, b);
            lemma_sleepers_carry(a, b);
        }
    } else {
        p.mutexes.push(Some(MutexState { blocking, locked: false, wait_queue: Vec::new() }));
        p.mutex_available.push(1);
        let rows = p.mutex_need.len();
        let mut t: usize = 0;
        while t < rows
            invariant
                t <= rows,
                rows == p.mutex_need@.len() == a.mutex_need@.len(),
                p.mutex_allocation@.len() == a.mutex_allocation@.len() == rows,
                p.threads == a.threads,
                p.mutexes@.len() == a.mutexes@.len() + 1,
                p.mutexes@ =~= a.mutexes@.push(p.mutexes@[nm as int]),
                p.mutexes@[nm as int] is Some,
                p.mutexes@[nm as int].unwrap().blocking == blocking,
                p.mutexes@[nm as int].unwrap().locked == false,
                p.mutexes@[nm as int].unwrap().wait_queue@.len() == 0,
                p.mutex_available@ =~= a.mutex_available@.push(1usize),
                p.semaphores == a.semaphores,
                p.condvars == a.condvars,
                p.sem_available == a.sem_available,
                p.sem_cap == a.sem_cap,
                p.sem_need == a.sem_need,
                p.sem_allocation == a.sem_allocation,
                p.deadlock_detect == a.deadlock_detect,
                p.now_ms == a.now_ms,
                p.sleepers == a.sleepers,
                forall|u: int|
                    0 <= u < t ==> (#[trigger] p.mutex_need@[u])@ =~= a.mtx_need_v()[u].push(
                        0usize,
                    ),
                forall|u: int|
                    0 <= u < t ==> (#[trigger] p.mutex_allocation@[u])@ =~= a.mtx_alloc_v()[
                        u].push(0usize),
                forall|u: int|
                    t <= u < rows ==> (#[trigger] p.mutex_need@[u]) == a.mutex_need@[u],
                forall|u: int|
                    t <= u < rows ==> (#[trigger] p.mutex_allocation@[u]) == a.mutex_allocation@[u],
        decreases rows - t,
        {
            let row = &mut p.mutex_need[t];
            row.push(0);
            let row2 = &mut p.mutex_allocation[t];
            row2.push(0);
            t += 1;
        }
        proof {
            let b = *p;
            let nmi = nm as int;
            assert(b.sem_need_v() == a.sem_need_v());
            assert(b.sem_alloc_v() == a.sem_alloc_v());
            assert forall|u: int| 0 <= u < rows implies (#[trigger] b.mtx_need_v()[u])
                =~= a.mtx_need_v()[u].push(0usize) by {
                assert(b.mutex_need@[u]@ =~= a.mtx_need_v()[u].push(0usize));
            }
            assert forall|u: int| 0 <= u < rows implies (#[trigger] b.mtx_alloc_v()[u])
                =~= a.mtx_alloc_v()[u].push(0usize) by {
                assert(b.mutex_allocation@[u]@ =~= a.mtx_alloc_v()[u].push(0usize));
            }
            assert forall|u: int| 0 <= u < b.mtx_need_v().len() implies (
            #[trigger] b.mtx_need_v()[u]).len() == nmi + 1 by {
                assert(a.mtx_need_v()[u].len() == nmi);
            }
            assert forall|u: int| 0 <= u < b.mtx_alloc_v().len() implies (
            #[trigger] b.mtx_alloc_v()[u]).len() == nmi + 1 by {
                assert(a.mtx_alloc_v()[u].len() == nmi);
            }
            assert forall|u: int| 0 <= u < b.n() implies need_row_ok(b, u) && status_valid(
                b,
                u,
            ) by {
                assert(need_row_ok(a, u));
                assert(status_valid(a, u));
                assert forall|r: int|
                    0 <= r < b.mutexes@.len() && b.threads@[u] != ThreadState::WaitingMutex(
                        r as usize,
                    ) implies (#[trigger] b.mtx_need_v()[u][r]) == 0 by {
                    if r < nmi {
                        assert(a.mtx_need_v()[u][r] == 0);
                    }
                }
                assert forall|r: int|
                    0 <= r < b.mutexes@.len() && b.threads@[u] == ThreadState::WaitingMutex(
                        r as usize,
                    ) implies (#[trigger] b.mtx_need_v()[u][r]) == 1 by {
                    assert(a.mtx_need_v()[u][r] == 1);
                }
                assert forall|r: int|
                    0 <= r < b.semaphores@.len() && b.threads@[u] != ThreadState::WaitingSem(
                        r as usize,
                    ) implies (#[trigger] b.sem_need_v()[u][r]) == 0 by {
                    assert(a.sem_need_v()[u][r] == 0);
                }
                assert forall|r: int|
                    0 <= r < b.semaphores@.len() && b.threads@[u] == ThreadState::WaitingSem(
                        r as usize,
                    ) implies (#[trigger] b.sem_need_v()[u][r]) == 1 by {
                    assert(a.sem_need_v()[u][r] == 1);
                }
            }
            assert forall|m: int| 0 <= m < b.mutexes@.len() implies mutex_inv(b, m) by {
                if m < nmi {
                    assert(mutex_inv(a, m));
                    assert forall|u: int| 0 <= u < b.n() implies (#[trigger] b.mtx_need_v()[u][m])
                        == a.mtx_need_v()[u][m] by {
                        assert(b.mtx_need_v()[u] =~= a.mtx_need_v()[u].push(0usize));
                    }
                    assert forall|u: int| 0 <= u < b.n() implies (#[trigger] b.mtx_alloc_v()[u][m])
                        == a.mtx_alloc_v()[u][m] by {
                        assert(b.mtx_alloc_v()[u] =~= a.mtx_alloc_v()[u].push(0usize));
                    }
                    lemma_col_total_prefix_eq(b.mtx_alloc_v(), a.mtx_alloc_v(), m, rows as int);
                    lemma_mutex_ok_carry(a, b, m);
                } else {
                    assert forall|u: int| 0 <= u < b.n() implies (#[trigger] b.mtx_alloc_v()[u][m])
                        == 0 by {
                        assert(b.mtx_alloc_v()[u] =~= a.mtx_alloc_v()[u].push(0usize));
                    }
                    assert forall|u: int| 0 <= u < b.n() implies (#[trigger] b.mtx_need_v()[u][m])
                        == 0 by {
                        assert(b.mtx_need_v()[u] =~= a.mtx_need_v()[u].push(0usize));
                    }
                    lemma_col_total_zero_col(b.mtx_alloc_v(), m);
                }
            }
            lemma_sem_side_carry(a, b);
            lemma_condvar_side_carry(a, b);
            lemma_sleepers_carry(a, b);
        }
    }
    proof {
        assert forall|t: int, j: int|
            0 <= t < a.n() && 0 <= j < a.mutexes@.len() && j != id implies (
        #[trigger] p.mtx_need_v()[t][j]) == a.mtx_need_v()[t][j] by {
            if id as int == a.mutexes@.len() {
                assert(p.mtx_need_v()[t] =~= a.mtx_need_v()[t].push(0usize));
            }
        }
        assert forall|t: int, j: int|
            0 <= t < a.n() && 0 <= j < a.mutexes@.len() && j != id implies (
        #[trigger] p.mtx_alloc_v()[t][j]) == a.mtx_alloc_v()[t][j] by {
            if id as int == a.mutexes@.len() {
                assert(p.mtx_alloc_v()[t] =~= a.mtx_alloc_v()[t].push(0usize));
            }
        }
        assert forall|t: int| 0 <= t < a.n() implies (#[trigger] p.mtx_need_v()[t][id as int])
            == 0 by {
            if id < nm {
                assert(mutex_inv(a, id as int));
                assert(a.mtx_need_v()[t][id as int] == 0);
            } else {
                assert(p.mtx_need_v()[t] =~= a.mtx_need_v()[t].push(0usize));
            }
        }
        assert forall|t: int| 0 <= t < a.n() implies (#[trigger] p.mtx_alloc_v()[t][id as int])
            == 0 by {
            if id < nm {
                assert(mutex_inv(a, id as int));
                assert(a.mtx_alloc_v()[t][id as int] == 0);
            } else {
                assert(p.mtx_alloc_v()[t] =~= a.mtx_alloc_v()[t].push(0usize));
            }
        }
    }
    id as isize
}

/// Creates a counting semaphore with `res_count` units in the first free
/// slot (or a fresh one) and registers its units in the ledger.
pub fn sys_semaphore_create(p: &mut ProcSync, res_count: usize) -> (id: isize)
    requires
        old(p).wf(),
        old(p).semaphores@.len() < 0x7FFF_FFFF,
    ensures
        final(p).wf(),
        0 <= id <= old(p).semaphores@.len(),
        forall|j: int| 0 <= j < id ==> (#[trigger] old(p).semaphores@[j]) is Some,
        id < old(p).semaphores@.len() ==> old(p).semaphores@[id as int] is None,
        final(p).threads == old(p).threads,
        final(p).mutexes == old(p).mutexes,
        final(p).condvars == old(p).condvars,
        final(p).mutex_available == old(p).mutex_available,
        final(p).mutex_need == old(p).mutex_need,
        final(p).mutex_allocation == old(p).mutex_allocation,
        final(p).deadlock_detect == old(p).deadlock_detect,
        final(p).now_ms == old(p).now_ms,
        final(p).sleepers == old(p).sleepers,
        final(p).semaphores@.len() == (if id < old(p).semaphores@.len() {
            old(p).semaphores@.len() as int
        } else {
            (old(p).semaphores@.len() + 1) as int
        }),
        final(p).semaphores@[id as int] is Some,
        final(p).semaphores@[id as int].unwrap().count == res_count,
        final(p).semaphores@[id as int].unwrap().wait_queue@.len() == 0,
        final(p).sem_available@[id as int] == res_count,
        final(p).sem_cap@[id as int] == res_count,
        forall|j: int|
            0 <= j < old(p).semaphores@.len() && j != id ==> (#[trigger] final(p).semaphores@[j])
                == old(p).semaphores@[j],
        forall|j: int|
            0 <= j < old(p).semaphores@.len() && j != id ==> (#[trigger] final(p).sem_available@[j]) == old(p).sem_available@[j] && final(p).sem_cap@[j] == old(p).sem_cap@[j],
        forall|t: int| 0 <= t < old(p).n() ==> (#[trigger] final(p).sem_need_v()[t][id as int]) == 0,
        forall|t: int| 0 <= t < old(p).n() ==> (#[trigger] final(p).sem_alloc_v()[t][id as int])
            == 0,
        forall|t: int, j: int|
            0 <= t < old(p).n() && 0 <= j < old(p).semaphores@.len() && j != id ==> (
            #[trigger] final(p).sem_need_v()[t][j]) == old(p).sem_need_v()[t][j],
        forall|t: int, j: int|
            0 <= t < old(p).n() && 0 <= j < old(p).semaphores@.len() && j != id ==> (
            #[trigger] final(p).sem_alloc_v()[t][j]) == old(p).sem_alloc_v()[t][j],
{
    let ghost a = *old(p);
    let ns = p.semaphores.len();
    let mut i: usize = 0;
    let mut id: usize = ns;
    while i < ns
        invariant
            i <= ns,
            id <= ns,
            ns == p.semaphores@.len(),
            *p == a,
            id == ns ==> forall|j: int| 0 <= j < i ==> (#[trigger] p.semaphores@[j]) is Some,
            id < ns ==> p.semaphores@[id as int] is None && id < i && (forall|j: int|
                0 <= j < id ==> (#[trigger] p.semaphores@[j]) is Some),
        decreases ns - i,
    {
        if id == ns && p.semaphores[i].is_none() {
            id = i;
        }
        i += 1;
    }
    if id < ns {
        p.semaphores[id] = Some(SemState { count: res_count, wait_queue: Vec::new() });
        p.sem_available[id] = res_count;
        p.sem_cap[id] = res_count;
        proof {
            let b = *p;
            assert(b.mtx_need_v() == a.mtx_need_v());
            assert(b.mtx_alloc_v() == a.mtx_alloc_v());
            assert(b.sem_need_v() == a.sem_need_v());
            assert(b.sem_alloc_v() == a.sem_alloc_v());
            assert forall|t: int| 0 <= t < b.n() implies need_row_ok(b, t) && status_valid(
                b,
                t,
            ) by {
                assert(need_row_ok(a, t));
                assert(status_valid(a, t));
                lemma_need_row_carry(a, b, t);
            }
            assert forall|sx: int| 0 <= sx < b.semaphores@.len() implies sem_inv(b, sx) by {
                assert(sem_inv(a, sx));
                if sx == id {
                    lemma_col_total_zero_col(b.sem_alloc_v(), sx);
                } else {
                    lemma_sem_ok_carry(a, b, sx);
                }
            }
            lemma_mutex_side_carry(a, b);
            lemma_condvar_side_carry(a, b);
            lemma_sleepers_carry(a, b);
        }
    } else {
        p.semaphores.push(Some(SemState { count: res_count, wait_queue: Vec::new() }));
        p.sem_available.push(res_count);
        p.sem_cap.push(res_count);
        let rows = p.sem_need.len();
        let mut t: usize = 0;
        while t < rows
            invariant
                t <= rows,
                rows == p.sem_need@.len() == a.sem_need@.len(),
                p.sem_allocation@.len() == a.sem_allocation@.len() == rows,
                p.threads == a.threads,
                p.semaphores@.len() == a.semaphores@.len() + 1,
                p.semaphores@ =~= a.semaphores@.push(p.semaphores@[ns as int]),
                p.semaphores@[ns as int] is Some,
                p.semaphores@[ns as int].unwrap().count == res_count,
                p.semaphores@[ns as int].unwrap().wait_queue@.len() == 0,
                p.sem_available@ =~= a.sem_available@.push(res_count),
                p.sem_cap@ =~= a.sem_cap@.push(res_count),
                p.mutexes == a.mutexes,
                p.condvars == a.condvars,
                p.mutex_available == a.mutex_available,
                p.mutex_need == a.mutex_need,
                p.mutex_allocation == a.mutex_allocation,
                p.deadlock_detect == a.deadlock_detect,
                p.now_ms == a.now_ms,
                p.sleepers == a.sleepers,
                forall|u: int|
                    0 <= u < t ==> (#[trigger] p.sem_need@[u])@ =~= a.sem_need_v()[u].push(0usize),
                forall|u: int|
                    0 <= u < t ==> (#[trigger] p.sem_allocation@[u])@ =~= a.sem_alloc_v()[u].push(
                        0usize,
                    ),
                forall|u: int| t <= u < rows ==> (#[trigger] p.sem_need@[u]) == a.sem_need@[u],
                forall|u: int|
                    t <= u < rows ==> (#[trigger] p.sem_allocation@[u]) == a.sem_allocation@[u],
            decreases rows - t,
        {
            let row = &mut p.sem_need[t];
            row.push(0);
            let row2 = &mut p.sem_allocation[t];
            row2.push(0);
            t += 1;
        }
        proof {
            let b = *p;
            let nsi = ns as int;
            assert(b.mtx_need_v() == a.mtx_need_v());
            assert(b.mtx_alloc_v() == a.mtx_alloc_v());
            assert forall|u: int| 0 <= u < rows implies (#[trigger] b.sem_need_v()[u])
                =~= a.sem_need_v()[u].push(0usize) by {
                assert(b.sem_need@[u]@ =~= a.sem_need_v()[u].push(0usize));
            }
            assert forall|u: int| 0 <= u < rows implies (#[trigger] b.sem_alloc_v()[u])
                =~= a.sem_alloc_v()[u].push(0usize) by {
                assert(b.sem_allocation@[u]@ =~= a.sem_alloc_v()[u].push(0usize));
            }
            assert forall|u: int| 0 <= u < b.sem_need_v().len() implies (
            #[trigger] b.sem_need_v()[u]).len() == nsi + 1 by {
                assert(a.sem_need_v()[u].len() == nsi);
            }
            assert forall|u: int| 0 <= u < b.sem_alloc_v().len() implies (
            #[trigger] b.sem_alloc_v()[u]).len() == nsi + 1 by {
                assert(a.sem_alloc_v()[u].len() == nsi);
            }
            assert forall|u: int| 0 <= u < b.n() implies need_row_ok(b, u) && status_valid(
                b,
                u,
            ) by {
                assert(need_row_ok(a, u));
                assert(status_valid(a, u));
                assert forall|r: int|
                    0 <= r < b.mutexes@.len() && b.threads@[u] != ThreadState::WaitingMutex(
                        r as usize,
                    ) implies (#[trigger] b.mtx_need_v()[u][r]) == 0 by {
                    assert(a.mtx_need_v()[u][r] == 0);
                }
                assert forall|r: int|
                    0 <= r < b.mutexes@.len() && b.threads@[u] == ThreadState::WaitingMutex(
                        r as usize,
                    ) implies (#[trigger] b.mtx_need_v()[u][r]) == 1 by {
                    assert(a.mtx_need_v()[u][r] == 1);
                }
                assert forall|r: int|
                    0 <= r < b.semaphores@.len() && b.threads@[u] != ThreadState::WaitingSem(
                        r as usize,
                    ) implies (#[trigger] b.sem_need_v()[u][r]) == 0 by {
                    if r < nsi {
                        assert(a.sem_need_v()[u][r] == 0);
                    }
                }
                assert forall|r: int|
                    0 <= r < b.semaphores@.len() && b.threads@[u] == ThreadState::WaitingSem(
                        r as usize,
                    ) implies (#[trigger] b.sem_need_v()[u][r]) == 1 by {
                    assert(a.sem_need_v()[u][r] == 1);
                }
            }
            assert forall|sx: int| 0 <= sx < b.semaphores@.len() implies sem_inv(b, sx) by {
                if sx < nsi {
                    assert(sem_inv(a, sx));
                    assert forall|u: int| 0 <= u < b.n() implies (#[trigger] b.sem_need_v()[u][sx])
                        == a.sem_need_v()[u][sx] by {
                        assert(b.sem_need_v()[u] =~= a.sem_need_v()[u].push(0usize));
                    }
                    assert forall|u: int| 0 <= u < b.n() implies (#[trigger] b.sem_alloc_v()[u][sx])
                        == a.sem_alloc_v()[u][sx] by {
                        assert(b.sem_alloc_v()[u] =~= a.sem_alloc_v()[u].push(0usize));
                    }
                    lemma_col_total_prefix_eq(b.sem_alloc_v(), a.sem_alloc_v(), sx, rows as int);
                    lemma_sem_ok_carry(a, b, sx);
                } else {
                    assert forall|u: int| 0 <= u < b.n() implies (#[trigger] b.sem_alloc_v()[u][sx])
                        == 0 by {
                        assert(b.sem_alloc_v()[u] =~= a.sem_alloc_v()[u].push(0usize));
                    }
                    assert forall|u: int| 0 <= u < b.n() implies (#[trigger] b.sem_need_v()[u][sx])
                        == 0 by {
                        assert(b.sem_need_v()[u] =~= a.sem_need_v()[u].push(0usize));
                    }
                    lemma_col_total_zero_col(b.sem_alloc_v(), sx);
                }
            }
            lemma_mutex_side_carry(a, b);
            lemma_condvar_side_carry(a, b);
            lemma_sleepers_carry(a, b);
        }
    }
    proof {
        assert forall|t: int, j: int|
            0 <= t < a.n() && 0 <= j < a.semaphores@.len() && j != id implies (
        #[trigger] p.sem_need_v()[t][j]) == a.sem_need_v()[t][j] by {
            if id as int == a.semaphores@.len() {
                assert(p.sem_need_v()[t] =~= a.sem_need_v()[t].push(0usize));
            }
        }
        assert forall|t: int, j: int|
            0 <= t < a.n() && 0 <= j < a.semaphores@.len() && j != id implies (
        #[trigger] p.sem_alloc_v()[t][j]) == a.sem_alloc_v()[t][j] by {
            if id as int == a.semaphores@.len() {
                assert(p.sem_alloc_v()[t] =~= a.sem_alloc_v()[t].push(0usize));
            }
        }
        assert forall|t: int| 0 <= t < a.n() implies (#[trigger] p.sem_need_v()[t][id as int])
            == 0 by {
            if id < ns {
                assert(sem_inv(a, id as int));
                assert(a.sem_need_v()[t][id as int] == 0);
            } else {
                assert(p.sem_need_v()[t] =~= a.sem_need_v()[t].push(0usize));
            }
        }
        assert forall|t: int| 0 <= t < a.n() implies (#[trigger] p.sem_alloc_v()[t][id as int])
            == 0 by {
            if id < ns {
                assert(sem_inv(a, id as int));
                assert(a.sem_alloc_v()[t][id as int] == 0);
            } else {
                assert(p.sem_alloc_v()[t] =~= a.sem_alloc_v()[t].push(0usize));
            }
        }
    }
    id as isize
}

/// Takes one unit of a semaphore.  The request passes the ledger: `need` is
/// raised and, when detection is enabled, an unsafe request is rejected with
/// the sentinel, all bookkeeping unchanged.  With a unit at hand the request
/// commits; otherwise the caller parks FIFO with its request outstanding.
pub fn sys_semaphore_down(p: &mut ProcSync, tid: usize, sem_id: usize) -> (r: isize)
    requires
        old(p).wf(),
        (tid as int) < old(p).n(),
        old(p).threads@[tid as int] == ThreadState::Ready,
    ensures
        final(p).wf(),
        !sem_valid(*old(p), sem_id as int) ==> r == -1 && *final(p) == *old(p),
        sem_valid(*old(p), sem_id as int) && old(p).deadlock_detect && !sem_request_safe(
            *old(p),
            tid as int,
            sem_id as int,
        ) ==> r == DEADLOCK_SENTINEL && same_state(*old(p), *final(p)),
        sem_valid(*old(p), sem_id as int) && (!old(p).deadlock_detect || sem_request_safe(
            *old(p),
            tid as int,
            sem_id as int,
        )) && old(p).semaphores@[sem_id as int].unwrap().count >= 1 ==> r == 0 && final(p).semaphores@ == old(p).semaphores@.update(
            sem_id as int,
            Some(
                (SemState {
                    count: (old(p).semaphores@[sem_id as int].unwrap().count - 1) as usize,
                    ..old(p).semaphores@[sem_id as int].unwrap()
                }),
            ),
        ) && final(p).sem_available@ == old(p).sem_available@.update(
            sem_id as int,
            (old(p).sem_available@[sem_id as int] - 1) as usize,
        ) && final(p).sem_alloc_v() == mat_set(
            old(p).sem_alloc_v(),
            tid as int,
            sem_id as int,
            (old(p).sem_alloc_v()[tid as int][sem_id as int] + 1) as usize,
        ) && final(p).sem_need_v() == old(p).sem_need_v() && final(p).threads == old(p).threads
            && final(p).sem_cap == old(p).sem_cap && outside_sem_eq(*old(p), *final(p)),
        sem_valid(*old(p), sem_id as int) && (!old(p).deadlock_detect || sem_request_safe(
            *old(p),
            tid as int,
            sem_id as int,
        )) && old(p).semaphores@[sem_id as int].unwrap().count == 0 ==> r == 0 && final(p).semaphores@.len() == old(p).semaphores@.len() && final(p).semaphores@[sem_id as int]
            is Some && final(p).semaphores@[sem_id as int].unwrap().count == 0 && final(p).semaphores@[sem_id as int].unwrap().wait_queue@ == old(p).semaphores@[
            sem_id as int].unwrap().wait_queue@.push(tid) && (forall|j: int|
            0 <= j < old(p).semaphores@.len() && j != sem_id ==> (#[trigger] final(p).semaphores@[j]) == old(p).semaphores@[j]) && final(p).threads@ == old(p).threads@.update(tid as int, ThreadState::WaitingSem(sem_id)) && final(p).sem_need_v()
            == mat_set(old(p).sem_need_v(), tid as int, sem_id as int, 1) && final(p).sem_available == old(p).sem_available && final(p).sem_allocation == old(p).sem_allocation && final(p).sem_cap == old(p).sem_cap && outside_sem_eq(*old(p), *final(p)),
{
    let ghost a = *old(p);
    if sem_id >= p.semaphores.len() || p.semaphores[sem_id].is_none() {
        return -1;
    }
    proof {
        assert(need_row_ok(a, tid as int));
        assert(a.sem_need_v()[tid as int][sem_id as int] == 0);
        assert(sem_inv(a, sem_id as int));
    }
    p.sem_need[tid][sem_id] = 1;
    proof {
        assert(p.sem_need_v() =~~= mat_set(a.sem_need_v(), tid as int, sem_id as int, 1));
    }
    if p.deadlock_detect {
        proof {
            lemma_sem_detector_pre(a);
            assert forall|t: int| 0 <= t < p.sem_need_v().len() implies (
            #[trigger] p.sem_need_v()[t]).len() == p.sem_available@.len() by {
                assert(a.sem_need_v()[t].len() == a.semaphores@.len());
            }
        }
        let safe = detect_safe(&p.sem_available, &p.sem_need, &p.sem_allocation);
        if !safe {
            p.sem_need[tid][sem_id] = 0;
            proof {
                assert(p.sem_need_v() =~~= a.sem_need_v());
                lemma_wf_same_state(a, *p);
            }
            return DEADLOCK_SENTINEL;
        }
    }
    let count = p.semaphores[sem_id].as_ref().unwrap().count;
    if count >= 1 {
        if let Some(sm) = &mut p.semaphores[sem_id] {
            sm.count = sm.count - 1;
        }
        let av = p.sem_available[sem_id];
        p.sem_available[sem_id] = av - 1;
        proof {
            lemma_entry_le_col_total(a.sem_alloc_v(), tid as int, sem_id as int);
            lemma_col_total_nonneg(a.sem_alloc_v(), sem_id as int);
        }
        let al = p.sem_allocation[tid][sem_id];
        p.sem_allocation[tid][sem_id] = al + 1;
        p.sem_need[tid][sem_id] = 0;
        proof {
            let b = *p;
            let si = sem_id as int;
            let ti = tid as int;
            assert(b.sem_need_v() =~~= a.sem_need_v());
            assert(b.sem_alloc_v() =~~= mat_set(
                a.sem_alloc_v(),
                ti,
                si,
                (a.sem_alloc_v()[ti][si] + 1) as usize,
            ));
            assert(b.semaphores@ =~= a.semaphores@.update(
                si,
                Some(
                    (SemState {
                        count: (a.semaphores@[si].unwrap().count - 1) as usize,
                        ..a.semaphores@[si].unwrap()
                    }),
                ),
            ));
            assert(b.sem_available@ =~= a.sem_available@.update(si, (a.sem_available@[si] - 1) as usize));
            assert forall|t: int| 0 <= t < b.n() implies need_row_ok(b, t) && status_valid(
                b,
                t,
            ) by {
                assert(need_row_ok(a, t));
                assert(status_valid(a, t));
                lemma_need_row_carry(a, b, t);
            }
            assert forall|sx: int| 0 <= sx < b.semaphores@.len() implies sem_inv(b, sx) by {
                assert(sem_inv(a, sx));
                lemma_col_total_set(a.sem_alloc_v(), ti, si, (a.sem_alloc_v()[ti][si] + 1) as usize, sx);
                if sx != si {
                    lemma_sem_ok_carry(a, b, sx);
                }
            }
            lemma_mutex_side_carry(a, b);
            lemma_condvar_side_carry(a, b);
            lemma_sleepers_carry(a, b);
        }
        0
    } else {
        if let Some(sm) = &mut p.semaphores[sem_id] {
            sm.wait_queue.push(tid);
        }
        p.threads[tid] = ThreadState::WaitingSem(sem_id);
        proof {
            let b = *p;
            let si = sem_id as int;
            let ti = tid as int;
            assert(b.sem_need_v() =~~= mat_set(a.sem_need_v(), ti, si, 1));
            assert(b.sem_alloc_v() == a.sem_alloc_v());
            assert forall|t: int| 0 <= t < b.n() implies need_row_ok(b, t) && status_valid(
                b,
                t,
            ) by {
                assert(need_row_ok(a, t));
                assert(status_valid(a, t));
                assert forall|r: int|
                    0 <= r < b.mutexes@.len() && b.threads@[t] != ThreadState::WaitingMutex(
                        r as usize,
                    ) implies (#[trigger] b.mtx_need_v()[t][r]) == 0 by {
                    assert(a.mtx_need_v()[t][r] == 0);
                }
                assert forall|r: int|
                    0 <= r < b.mutexes@.len() && b.threads@[t] == ThreadState::WaitingMutex(
                        r as usize,
                    ) implies (#[trigger] b.mtx_need_v()[t][r]) == 1 by {
                    assert(t != ti);
                    assert(a.mtx_need_v()[t][r] == 1);
                }
                assert forall|r: int|
                    0 <= r < b.semaphores@.len() && b.threads@[t] != ThreadState::WaitingSem(
                        r as usize,
                    ) implies (#[trigger] b.sem_need_v()[t][r]) == 0 by {
                    assert(a.sem_need_v()[t][r] == 0);
                }
                assert forall|r: int|
                    0 <= r < b.semaphores@.len() && b.threads@[t] == ThreadState::WaitingSem(
                        r as usize,
                    ) implies (#[trigger] b.sem_need_v()[t][r]) == 1 by {
                    if t != ti {
                        assert(a.sem_need_v()[t][r] == 1);
                    }
                }
            }
            assert forall|sx: int| 0 <= sx < b.semaphores@.len() implies sem_inv(b, sx) by {
                assert(sem_inv(a, sx));
                if sx == si {
                    let sm = b.semaphores@[sx].unwrap();
                    let oldsm = a.semaphores@[sx].unwrap();
                    assert(sm.wait_queue@ == oldsm.wait_queue@.push(tid));
                    assert forall|i: int| 0 <= i < sm.wait_queue@.len() implies b.waiter_on_sem(
                        sx,
                        #[trigger] sm.wait_queue@[i],
                    ) by {
                        if i < oldsm.wait_queue@.len() {
                            assert(a.waiter_on_sem(sx, oldsm.wait_queue@[i]));
                        }
                    }
                    assert forall|i: int, k: int|
                        0 <= i < k < sm.wait_queue@.len() implies sm.wait_queue@[i]
                        != sm.wait_queue@[k] by {
                        if k == sm.wait_queue@.len() - 1 {
                            assert(a.waiter_on_sem(sx, oldsm.wait_queue@[i]));
                        }
                    }
                } else {
                    lemma_sem_ok_carry(a, b, sx);
                }
            }
            lemma_mutex_side_carry(a, b);
            lemma_condvar_side_carry(a, b);
            lemma_sleepers_carry(a, b);
        }
        0
    }
}

/// Releases one unit of a semaphore.  With parked takers the unit is handed
/// directly to the first waiter, which becomes ready holding it (the free
/// count stays untouched); otherwise the free count grows by one.  A
/// releaser holding no unit of the semaphore is a pure producer and grows
/// the semaphore's total; a producer release that cannot account one more
/// unit is an error that changes nothing.
pub fn sys_semaphore_up(p: &mut ProcSync, tid: usize, sem_id: usize) -> (r: isize)
    requires
        old(p).wf(),
        (tid as int) < old(p).n(),
        old(p).threads@[tid as int] == ThreadState::Ready,
    ensures
        final(p).wf(),
        !sem_valid(*old(p), sem_id as int) || (old(p).sem_alloc_v()[tid as int][sem_id as int] == 0
            && old(p).sem_cap@[sem_id as int] == usize::MAX) ==> r == -1 && *final(p) == *old(p),
        sem_valid(*old(p), sem_id as int) && !(old(p).sem_alloc_v()[tid as int][sem_id as int] == 0
            && old(p).sem_cap@[sem_id as int] == usize::MAX) ==> {
            let oldsm = old(p).semaphores@[sem_id as int].unwrap();
            let holds = old(p).sem_alloc_v()[tid as int][sem_id as int] >= 1;
            let newcap = if holds {
                old(p).sem_cap@[sem_id as int] as int
            } else {
                old(p).sem_cap@[sem_id as int] + 1
            };
            &&& r == 0
            &&& final(p).sem_cap@ == old(p).sem_cap@.update(sem_id as int, newcap as usize)
            &&& (oldsm.wait_queue@.len() > 0 ==> {
                let w = oldsm.wait_queue@[0];
                &&& final(p).semaphores@.len() == old(p).semaphores@.len()
                &&& final(p).semaphores@[sem_id as int] is Some
                &&& final(p).semaphores@[sem_id as int].unwrap().count == oldsm.count
                &&& final(p).semaphores@[sem_id as int].unwrap().wait_queue@
                    == oldsm.wait_queue@.drop_first()
                &&& (forall|j: int|
                    0 <= j < old(p).semaphores@.len() && j != sem_id ==> (#[trigger] final(p).semaphores@[j]) == old(p).semaphores@[j])
                &&& final(p).threads@ == old(p).threads@.update(w as int, ThreadState::Ready)
                &&& final(p).sem_need_v() == mat_set(
                    old(p).sem_need_v(),
                    w as int,
                    sem_id as int,
                    0,
                )
                &&& final(p).sem_alloc_v() == mat_set(
                    mat_set(
                        old(p).sem_alloc_v(),
                        tid as int,
                        sem_id as int,
                        (if holds {
                            old(p).sem_alloc_v()[tid as int][sem_id as int] - 1
                        } else {
                            0
                        }) as usize,
                    ),
                    w as int,
                    sem_id as int,
                    (old(p).sem_alloc_v()[w as int][sem_id as int] + 1) as usize,
                )
                &&& final(p).sem_available == old(p).sem_available
                &&& outside_sem_eq(*old(p), *final(p))
            })
            &&& (oldsm.wait_queue@.len() == 0 ==> {
                &&& final(p).semaphores@ == old(p).semaphores@.update(
                    sem_id as int,
                    Some((SemState { count: (oldsm.count + 1) as usize, ..oldsm })),
                )
                &&& final(p).sem_available@ == old(p).sem_available@.update(
                    sem_id as int,
                    (old(p).sem_available@[sem_id as int] + 1) as usize,
                )
                &&& final(p).sem_need_v() == old(p).sem_need_v()
                &&& final(p).sem_alloc_v() == mat_set(
                    old(p).sem_alloc_v(),
                    tid as int,
                    sem_id as int,
                    (if holds {
                        old(p).sem_alloc_v()[tid as int][sem_id as int] - 1
                    } else {
                        0
                    }) as usize,
                )
                &&& final(p).threads == old(p).threads
                &&& outside_sem_eq(*old(p), *final(p))
            })
        },
{
    let ghost a = *old(p);
    if sem_id >= p.semaphores.len() || p.semaphores[sem_id].is_none() {
        return -1;
    }
    proof {
        assert(sem_inv(a, sem_id as int));
        assert(a.sem_allocation@[tid as int]@.len() == a.semaphores@.len()) by {
            assert(a.sem_alloc_v()[tid as int].len() == a.semaphores@.len());
        }
        lemma_entry_le_col_total(a.sem_alloc_v(), tid as int, sem_id as int);
        lemma_col_total_nonneg(a.sem_alloc_v(), sem_id as int);
    }
    let holds = p.sem_allocation[tid][sem_id] >= 1;
    if !holds && p.sem_cap[sem_id] == usize::MAX {
        return -1;
    }
    let ghost newcap = if holds {
        a.sem_cap@[sem_id as int] as int
    } else {
        a.sem_cap@[sem_id as int] + 1
    };
    if !holds {
        let c = p.sem_cap[sem_id];
        p.sem_cap[sem_id] = c + 1;
    } else {
        let al = p.sem_allocation[tid][sem_id];
        p.sem_allocation[tid][sem_id] = al - 1;
    }
    proof {
        assert(p.sem_cap@ =~= a.sem_cap@.update(sem_id as int, newcap as usize));
        assert(p.sem_alloc_v() =~~= mat_set(
            a.sem_alloc_v(),
            tid as int,
            sem_id as int,
            (if holds {
                a.sem_alloc_v()[tid as int][sem_id as int] - 1
            } else {
                0
            }) as usize,
        ));
    }
    let ghost mid = *p;
    let has_waiter = p.semaphores[sem_id].as_ref().unwrap().wait_queue.len() > 0;
    if has_waiter {
        let mut w: usize = 0;
        if let Some(sm) = &mut p.semaphores[sem_id] {
            w = sm.wait_queue.remove(0);
        }
        proof {
            let si = sem_id as int;
            assert(a.waiter_on_sem(si, w));
            assert(need_row_ok(a, w as int));
            assert(a.sem_need_v()[w as int][si] == 1);
            assert(w != tid);
            assert(a.semaphores@[si].unwrap().count == 0);
            lemma_two_entries_le_col_total(a.sem_alloc_v(), tid as int, w as int, si);
        }
        let aw = p.sem_allocation[w][sem_id];
        p.sem_allocation[w][sem_id] = aw + 1;
        p.sem_need[w][sem_id] = 0;
        p.threads[w] = ThreadState::Ready;
        proof {
            let b = *p;
            let si = sem_id as int;
            let ti = tid as int;
            let wi = w as int;
            let oldsm = a.semaphores@[si].unwrap();
            assert(b.sem_need_v() =~~= mat_set(a.sem_need_v(), wi, si, 0));
            assert(b.sem_alloc_v() =~~= mat_set(
                mid.sem_alloc_v(),
                wi,
                si,
                (a.sem_alloc_v()[wi][si] + 1) as usize,
            ));
            assert(b.semaphores@[si].unwrap().wait_queue@ == oldsm.wait_queue@.drop_first());
            assert(b.threads@ =~= a.threads@.update(wi, ThreadState::Ready));
            assert forall|t: int| 0 <= t < b.n() implies need_row_ok(b, t) && status_valid(
                b,
                t,
            ) by {
                assert(need_row_ok(a, t));
                assert(status_valid(a, t));
                assert forall|r: int|
                    0 <= r < b.mutexes@.len() && b.threads@[t] != ThreadState::WaitingMutex(
                        r as usize,
                    ) implies (#[trigger] b.mtx_need_v()[t][r]) == 0 by {
                    assert(a.mtx_need_v()[t][r] == 0);
                }
                assert forall|r: int|
                    0 <= r < b.mutexes@.len() && b.threads@[t] == ThreadState::WaitingMutex(
                        r as usize,
                    ) implies (#[trigger] b.mtx_need_v()[t][r]) == 1 by {
                    assert(t != wi);
                    assert(a.mtx_need_v()[t][r] == 1);
                }
                assert forall|r: int|
                    0 <= r < b.semaphores@.len() && b.threads@[t] != ThreadState::WaitingSem(
                        r as usize,
                    ) implies (#[trigger] b.sem_need_v()[t][r]) == 0 by {
                    if !(t == wi && r == si) {
                        assert(a.sem_need_v()[t][r] == 0);
                    }
                }
                assert forall|r: int|
                    0 <= r < b.semaphores@.len() && b.threads@[t] == ThreadState::WaitingSem(
                        r as usize,
                    ) implies (#[trigger] b.sem_need_v()[t][r]) == 1 by {
                    assert(t != wi);
                    assert(a.sem_need_v()[t][r] == 1);
                }
            }
            assert forall|sx: int| 0 <= sx < b.semaphores@.len() implies sem_inv(b, sx) by {
                assert(sem_inv(a, sx));
                lemma_col_total_set(
                    a.sem_alloc_v(),
                    ti,
                    si,
                    (if holds {
                        a.sem_alloc_v()[ti][si] - 1
                    } else {
                        0
                    }) as usize,
                    sx,
                );
                lemma_col_total_set(
                    mid.sem_alloc_v(),
                    wi,
                    si,
                    (a.sem_alloc_v()[wi][si] + 1) as usize,
                    sx,
                );
                if sx == si {
                    let sm = b.semaphores@[sx].unwrap();
                    assert forall|i: int| 0 <= i < sm.wait_queue@.len() implies b.waiter_on_sem(
                        sx,
                        #[trigger] sm.wait_queue@[i],
                    ) by {
                        assert(sm.wait_queue@[i] == oldsm.wait_queue@[i + 1]);
                        assert(a.waiter_on_sem(sx, oldsm.wait_queue@[i + 1]));
                        assert(oldsm.wait_queue@[i + 1] != w);
                    }
                    assert forall|i: int, k: int|
                        0 <= i < k < sm.wait_queue@.len() implies sm.wait_queue@[i]
                        != sm.wait_queue@[k] by {
                        assert(sm.wait_queue@[i] == oldsm.wait_queue@[i + 1]);
                        assert(sm.wait_queue@[k] == oldsm.wait_queue@[k + 1]);
                    }
                } else {
                    lemma_sem_ok_carry(a, b, sx);
                }
            }
            lemma_mutex_side_carry(a, b);
            lemma_condvar_side_carry(a, b);
            lemma_sleepers_carry(a, b);
        }
        0
    } else {
        proof {
            assert(sem_inv(a, sem_id as int));
        }
        if let Some(sm) = &mut p.semaphores[sem_id] {
            sm.count = sm.count + 1;
        }
        let av = p.sem_available[sem_id];
        p.sem_available[sem_id] = av + 1;
        proof {
            let b = *p;
            let si = sem_id as int;
            let ti = tid as int;
            let oldsm = a.semaphores@[si].unwrap();
            assert(b.sem_need_v() == a.sem_need_v());
            assert(b.sem_alloc_v() == mid.sem_alloc_v());
            assert(b.semaphores@ =~= a.semaphores@.update(
                si,
                Some((SemState { count: (oldsm.count + 1) as usize, ..oldsm })),
            ));
            assert(b.sem_available@ =~= a.sem_available@.update(si, (a.sem_available@[si] + 1) as usize));
            assert forall|t: int| 0 <= t < b.n() implies need_row_ok(b, t) && status_valid(
                b,
                t,
            ) by {
                assert(need_row_ok(a, t));
                assert(status_valid(a, t));
                lemma_need_row_carry(a, b, t);
            }
            assert forall|sx: int| 0 <= sx < b.semaphores@.len() implies sem_inv(b, sx) by {
                assert(sem_inv(a, sx));
                lemma_col_total_set(
                    a.sem_alloc_v(),
                    ti,
                    si,
                    (if holds {
                        a.sem_alloc_v()[ti][si] - 1
                    } else {
                        0
                    }) as usize,
                    sx,
                );
                if sx != si {
                    lemma_sem_ok_carry(a, b, sx);
                }
            }
            lemma_mutex_side_carry(a, b);
            lemma_condvar_side_carry(a, b);
            lemma_sleepers_carry(a, b);
        }
        0
    }
}

/// Creates a condition variable in the first free slot (or a fresh one).
pub fn sys_condvar_create(p: &mut ProcSync) -> (id: isize)
    requires
        old(p).wf(),
        old(p).condvars@.len() < 0x7FFF_FFFF,
    ensures
        final(p).wf(),
        0 <= id <= old(p).condvars@.len(),
        forall|j: int| 0 <= j < id ==> (#[trigger] old(p).condvars@[j]) is Some,
        id < old(p).condvars@.len() ==> old(p).condvars@[id as int] is None,
        final(p).condvars@.len() == (if id < old(p).condvars@.len() {
            old(p).condvars@.len() as int
        } else {
            (old(p).condvars@.len() + 1) as int
        }),
        final(p).condvars@[id as int] is Some,
        final(p).condvars@[id as int].unwrap().wait_queue@.len() == 0,
        forall|j: int|
            0 <= j < old(p).condvars@.len() && j != id ==> (#[trigger] final(p).condvars@[j])
                == old(p).condvars@[j],
        *final(p) == (ProcSync { condvars: final(p).condvars, ..*old(p) }),
{
    let ghost a = *old(p);
    let nc = p.condvars.len();
    let mut i: usize = 0;
    let mut id: usize = nc;
    while i < nc
        invariant
            i <= nc,
            id <= nc,
            nc == p.condvars@.len(),
            *p == a,
            id == nc ==> forall|j: int| 0 <= j < i ==> (#[trigger] p.condvars@[j]) is Some,
            id < nc ==> p.condvars@[id as int] is None && id < i && (forall|j: int|
                0 <= j < id ==> (#[trigger] p.condvars@[j]) is Some),
        decreases nc - i,
    {
        if id == nc && p.condvars[i].is_none() {
            id = i;
        }
        i += 1;
    }
    if id < nc {
        p.condvars[id] = Some(CondvarState { wait_queue: Vec::new() });
    } else {
        p.condvars.push(Some(CondvarState { wait_queue: Vec::new() }));
    }
    proof {
        let b = *p;
        assert forall|t: int| 0 <= t < b.n() implies need_row_ok(b, t) && status_valid(b, t) by {
            assert(need_row_ok(a, t));
            assert(status_valid(a, t));
            lemma_need_row_carry(a, b, t);
        }
        lemma_mutex_side_carry(a, b);
        lemma_sem_side_carry(a, b);
        assert forall|c: int| 0 <= c < b.condvars@.len() implies condvar_inv(b, c) by {
            if c != id {
                assert(condvar_inv(a, c));
                lemma_condvar_ok_carry(a, b, c);
            }
        }
        lemma_sleepers_carry(a, b);
    }
    id as isize
}

/// Wakes exactly one waiter of the condition variable, if any: the earliest
/// parked thread becomes ready and must re-acquire its mutex itself.
pub fn sys_condvar_signal(p: &mut ProcSync, condvar_id: usize) -> (r: isize)
    requires
        old(p).wf(),
    ensures
        final(p).wf(),
        !condvar_valid(*old(p), condvar_id as int) ==> r == -1 && *final(p) == *old(p),
        condvar_valid(*old(p), condvar_id as int) && old(p).condvars@[
            condvar_id as int].unwrap().wait_queue@.len() == 0 ==> r == 0 && *final(p) == *old(p),
        condvar_valid(*old(p), condvar_id as int) && old(p).condvars@[
            condvar_id as int].unwrap().wait_queue@.len() > 0 ==> {
            let w = old(p).condvars@[condvar_id as int].unwrap().wait_queue@[0];
            &&& r == 0
            &&& final(p).condvars@.len() == old(p).condvars@.len()
            &&& final(p).condvars@[condvar_id as int] is Some
            &&& final(p).condvars@[condvar_id as int].unwrap().wait_queue@ == old(p).condvars@[
                condvar_id as int].unwrap().wait_queue@.drop_first()
            &&& (forall|j: int|
                0 <= j < old(p).condvars@.len() && j != condvar_id ==> (#[trigger] final(p).condvars@[j]) == old(p).condvars@[j])
            &&& final(p).threads@ == old(p).threads@.update(w as int, ThreadState::Ready)
            &&& *final(p) == (ProcSync {
                condvars: final(p).condvars,
                threads: final(p).threads,
                ..*old(p)
            })
        },
{
    let ghost a = *old(p);
    if condvar_id >= p.condvars.len() || p.condvars[condvar_id].is_none() {
        return -1;
    }
    let has_waiter = p.condvars[condvar_id].as_ref().unwrap().wait_queue.len() > 0;
    if !has_waiter {
        return 0;
    }
    let mut w: usize = 0;
    if let Some(cv) = &mut p.condvars[condvar_id] {
        w = cv.wait_queue.remove(0);
    }
    proof {
        let ci = condvar_id as int;
        assert(condvar_inv(a, ci));
        assert(a.threads@[w as int] == ThreadState::WaitingCondvar(condvar_id));
    }
    p.threads[w] = ThreadState::Ready;
    proof {
        let b = *p;
        let ci = condvar_id as int;
        let wi = w as int;
        let oldcv = a.condvars@[ci].unwrap();
        assert(b.threads@ =~= a.threads@.update(wi, ThreadState::Ready));
        assert forall|t: int| 0 <= t < b.n() implies need_row_ok(b, t) && status_valid(b, t) by {
            assert(need_row_ok(a, t));
            assert(status_valid(a, t));
            lemma_need_row_carry(a, b, t);
        }
        lemma_mutex_side_carry(a, b);
        lemma_sem_side_carry(a, b);
        assert forall|c: int| 0 <= c < b.condvars@.len() implies condvar_inv(b, c) by {
            assert(condvar_inv(a, c));
            if c == ci {
                let cv = b.condvars@[c].unwrap();
                assert forall|i: int|
                    0 <= i < cv.wait_queue@.len() implies (((#[trigger] cv.wait_queue@[i]) as int)
                    < b.n() && b.threads@[cv.wait_queue@[i] as int] == ThreadState::WaitingCondvar(
                    c as usize,
                )) by {
                    assert(cv.wait_queue@[i] == oldcv.wait_queue@[i + 1]);
                    assert(a.threads@[oldcv.wait_queue@[i + 1] as int]
                        == ThreadState::WaitingCondvar(c as usize));
                    assert(oldcv.wait_queue@[i + 1] != w);
                }
                assert forall|i: int, k: int|
                    0 <= i < k < cv.wait_queue@.len() implies cv.wait_queue@[i]
                    != cv.wait_queue@[k] by {
                    assert(cv.wait_queue@[i] == oldcv.wait_queue@[i + 1]);
                    assert(cv.wait_queue@[k] == oldcv.wait_queue@[k + 1]);
                }
            } else {
                lemma_condvar_ok_carry(a, b, c);
            }
        }
        lemma_sleepers_carry(a, b);
    }
    0
}

/// Atomically releases the mutex (with the usual hand-off to its first
/// contender) and parks the caller on the condition variable.  The woken
/// thread must re-acquire the mutex itself; no automatic re-acquire is
/// performed.  Naming an unknown primitive or a mutex the caller does not
/// hold is an error that changes nothing.
pub fn sys_condvar_wait(p: &mut ProcSync, tid: usize, condvar_id: usize, mutex_id: usize) -> (r:
    isize)
    requires
        old(p).wf(),
        (tid as int) < old(p).n(),
        old(p).threads@[tid as int] == ThreadState::Ready,
    ensures
        final(p).wf(),
        !condvar_valid(*old(p), condvar_id as int) || !mutex_valid(*old(p), mutex_id as int) || old(p).mtx_alloc_v()[tid as int][mutex_id as int] == 0 ==> r == -1 && *final(p) == *old(p),
        condvar_valid(*old(p), condvar_id as int) && mutex_valid(*old(p), mutex_id as int) && old(p).mtx_alloc_v()[tid as int][mutex_id as int] >= 1 ==> {
            &&& r == 0
            &&& final(p).threads@.len() == old(p).threads@.len()
            &&& final(p).threads@[tid as int] == ThreadState::WaitingCondvar(condvar_id)
            &&& (old(p).mutexes@[mutex_id as int].unwrap().wait_queue@.len() > 0 ==> final(p).threads@[old(p).mutexes@[mutex_id as int].unwrap().wait_queue@[0] as int]
                == ThreadState::Ready)
            &&& (forall|t: int|
                0 <= t < old(p).threads@.len() && t != tid && (#[trigger] final(p).threads@[t])
                    != old(p).threads@[t] ==> old(p).mutexes@[
                    mutex_id as int].unwrap().wait_queue@.len() > 0 && t == old(p).mutexes@[
                    mutex_id as int].unwrap().wait_queue@[0] && final(p).threads@[t]
                    == ThreadState::Ready)
            &&& final(p).condvars@[condvar_id as int].unwrap().wait_queue@ == old(p).condvars@[
                condvar_id as int].unwrap().wait_queue@.push(tid)
            &&& (old(p).mutexes@[mutex_id as int].unwrap().wait_queue@.len() == 0
                ==> !final(p).mutexes@[mutex_id as int].unwrap().locked && final(p).mutex_available@[mutex_id as int] == 1)
        },
{
    let ghost a = *old(p);
    if condvar_id >= p.condvars.len() || p.condvars[condvar_id].is_none() {
        return -1;
    }
    proof {
        assert(a.mutex_allocation@[tid as int]@.len() == a.mutexes@.len()) by {
            if (tid as int) < a.mutex_allocation@.len() {
                assert(a.mtx_alloc_v()[tid as int].len() == a.mutexes@.len());
            }
        }
    }
    if mutex_id >= p.mutexes.len() || p.mutexes[mutex_id].is_none() {
        return -1;
    }
    if p.mutex_allocation[tid][mutex_id] == 0 {
        return -1;
    }
    let ret = sys_mutex_unlock(p, tid, mutex_id);
    let ghost mid = *p;
    proof {
        assert(ret == 0);
        let mi = mutex_id as int;
        assert(mutex_inv(a, mi));
        if a.mutexes@[mi].unwrap().wait_queue@.len() > 0 {
            let w0 = a.mutexes@[mi].unwrap().wait_queue@[0];
            assert(a.waiter_on_mutex(mi, w0));
            assert(w0 != tid);
        }
        assert(p.threads@[tid as int] == ThreadState::Ready);
        assert(condvar_valid(mid, condvar_id as int));
        assert(need_row_ok(mid, tid as int));
    }
    if let Some(cv) = &mut p.condvars[condvar_id] {
        cv.wait_queue.push(tid);
    }
    p.threads[tid] = ThreadState::WaitingCondvar(condvar_id);
    proof {
        let b = *p;
        let ci = condvar_id as int;
        let ti = tid as int;
        assert forall|t: int| 0 <= t < b.n() implies need_row_ok(b, t) && status_valid(b, t) by {
            assert(need_row_ok(mid, t));
            assert(status_valid(mid, t));
            if t == ti {
                assert forall|r: int|
                    0 <= r < b.mutexes@.len() && b.threads@[t] != ThreadState::WaitingMutex(
                        r as usize,
                    ) implies (#[trigger] b.mtx_need_v()[t][r]) == 0 by {
                    assert(mid.mtx_need_v()[t][r] == 0);
                }
                assert forall|r: int|
                    0 <= r < b.semaphores@.len() && b.threads@[t] != ThreadState::WaitingSem(
                        r as usize,
                    ) implies (#[trigger] b.sem_need_v()[t][r]) == 0 by {
                    assert(mid.sem_need_v()[t][r] == 0);
                }
            } else {
                lemma_need_row_carry(mid, b, t);
            }
        }
        assert forall|m: int| 0 <= m < b.mutexes@.len() implies mutex_inv(b, m) by {
            assert(mutex_inv(mid, m));
            lemma_mutex_ok_carry(mid, b, m);
        }
        lemma_sem_side_carry(mid, b);
        assert forall|c: int| 0 <= c < b.condvars@.len() implies condvar_inv(b, c) by {
            assert(condvar_inv(mid, c));
            if c == ci {
                let cv = b.condvars@[c].unwrap();
                let oldcv = mid.condvars@[c].unwrap();
                assert(cv.wait_queue@ == oldcv.wait_queue@.push(tid));
                assert forall|i: int|
                    0 <= i < cv.wait_queue@.len() implies (((#[trigger] cv.wait_queue@[i]) as int)
                    < b.n() && b.threads@[cv.wait_queue@[i] as int] == ThreadState::WaitingCondvar(
                    c as usize,
                )) by {
                    if i < oldcv.wait_queue@.len() {
                        assert(mid.threads@[oldcv.wait_queue@[i] as int]
                            == ThreadState::WaitingCondvar(c as usize));
                    }
                }
                assert forall|i: int, k: int|
                    0 <= i < k < cv.wait_queue@.len() implies cv.wait_queue@[i]
                    != cv.wait_queue@[k] by {
                    if k == cv.wait_queue@.len() - 1 {
                        assert(mid.threads@[oldcv.wait_queue@[i] as int]
                            == ThreadState::WaitingCondvar(c as usize));
                    }
                }
            } else {
                lemma_condvar_ok_carry(mid, b, c);
            }
        }
        lemma_sleepers_carry(mid, b);
    }
    0
}

} // verus!
