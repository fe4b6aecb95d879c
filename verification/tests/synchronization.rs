use os_core::sync::sys_condvar_create;
use os_core::sync::sys_condvar_signal;
use os_core::sync::sys_condvar_wait;
use os_core::sync::sys_enable_deadlock_detect;
use os_core::sync::sys_mutex_create;
use os_core::sync::sys_mutex_lock;
use os_core::sync::sys_mutex_unlock;
use os_core::sync::sys_semaphore_create;
use os_core::sync::sys_semaphore_down;
use os_core::sync::sys_semaphore_up;
use os_core::sync::sys_sleep;
use os_core::sync::timer_advance;
use os_core::sync::ProcSync;
use os_core::sync::ThreadState;
use os_core::sync::DEADLOCK_SENTINEL;

#[test]
fn enable_deadlock_detect_validates_argument() {
    let mut p = ProcSync::new();
    assert_eq!(sys_enable_deadlock_detect(&mut p, 1), 0);
    assert!(p.deadlock_detect);
    assert_eq!(sys_enable_deadlock_detect(&mut p, 0), 0);
    assert!(!p.deadlock_detect);
    assert_eq!(sys_enable_deadlock_detect(&mut p, 2), -1);
    assert!(!p.deadlock_detect);
}

#[test]
fn mutex_lock_unlock_roundtrip() {
    let mut p = ProcSync::new();
    let m = sys_mutex_create(&mut p, true) as usize;
    assert_eq!(m, 0);
    assert_eq!(sys_mutex_lock(&mut p, 0, m), 0);
    assert!(p.mutexes[m].as_ref().unwrap().locked);
    assert_eq!(p.mutex_available[m], 0);
    assert_eq!(p.mutex_allocation[0][m], 1);
    assert_eq!(sys_mutex_unlock(&mut p, 0, m), 0);
    assert!(!p.mutexes[m].as_ref().unwrap().locked);
    assert_eq!(p.mutex_available[m], 1);
    assert_eq!(p.mutex_allocation[0][m], 0);
}

#[test]
fn mutex_unknown_id_is_not_found() {
    let mut p = ProcSync::new();
    assert_eq!(sys_mutex_lock(&mut p, 0, 3), -1);
    assert_eq!(sys_mutex_unlock(&mut p, 0, 3), -1);
}

#[test]
fn mutex_unlock_without_holding_changes_nothing() {
    let mut p = ProcSync::new();
    let m = sys_mutex_create(&mut p, true) as usize;
    assert_eq!(sys_mutex_unlock(&mut p, 0, m), -1);
    assert_eq!(p.mutex_available[m], 1);
}

#[test]
fn blocking_mutex_parks_fifo_and_hands_off() {
    let mut p = ProcSync::new();
    let t1 = p.thread_create();
    let t2 = p.thread_create();
    let m = sys_mutex_create(&mut p, true) as usize;
    assert_eq!(sys_mutex_lock(&mut p, 0, m), 0);
    assert_eq!(sys_mutex_lock(&mut p, t1, m), 0);
    assert_eq!(sys_mutex_lock(&mut p, t2, m), 0);
    assert_eq!(p.threads[t1], ThreadState::WaitingMutex(m));
    assert_eq!(p.threads[t2], ThreadState::WaitingMutex(m));
    // hand-off wakes the earliest waiter; the mutex never becomes free
    assert_eq!(sys_mutex_unlock(&mut p, 0, m), 0);
    assert_eq!(p.threads[t1], ThreadState::Ready);
    assert_eq!(p.threads[t2], ThreadState::WaitingMutex(m));
    assert!(p.mutexes[m].as_ref().unwrap().locked);
    assert_eq!(p.mutex_allocation[t1][m], 1);
    assert_eq!(sys_mutex_unlock(&mut p, t1, m), 0);
    assert_eq!(p.threads[t2], ThreadState::Ready);
    assert_eq!(sys_mutex_unlock(&mut p, t2, m), 0);
    assert_eq!(p.mutex_available[m], 1);
}

#[test]
fn spin_mutex_busy_waits_without_parking() {
    let mut p = ProcSync::new();
    let t1 = p.thread_create();
    let m = sys_mutex_create(&mut p, false) as usize;
    assert_eq!(sys_mutex_lock(&mut p, 0, m), 0);
    // a contender spins: the call returns, nothing is recorded
    assert_eq!(sys_mutex_lock(&mut p, t1, m), 0);
    assert_eq!(p.threads[t1], ThreadState::Ready);
    assert_eq!(p.mutex_need[t1][m], 0);
    assert_eq!(p.mutexes[m].as_ref().unwrap().wait_queue.len(), 0);
}

#[test]
fn classic_deadlock_is_predicted_with_detection_enabled() {
    let mut p = ProcSync::new();
    let t1 = p.thread_create();
    assert_eq!(sys_enable_deadlock_detect(&mut p, 1), 0);
    let m0 = sys_mutex_create(&mut p, true) as usize;
    let m1 = sys_mutex_create(&mut p, true) as usize;
    assert_eq!(sys_mutex_lock(&mut p, 0, m0), 0);
    assert_eq!(sys_mutex_lock(&mut p, t1, m1), 0);
    // thread 0 requests the other mutex: still safe, so it parks
    assert_eq!(sys_mutex_lock(&mut p, 0, m1), 0);
    assert_eq!(p.threads[0], ThreadState::WaitingMutex(m1));
    let avail_before = p.mutex_available.clone();
    let alloc_before = p.mutex_allocation.clone();
    // the closing request of the cycle is rejected with the sentinel
    assert_eq!(sys_mutex_lock(&mut p, t1, m0), DEADLOCK_SENTINEL);
    assert_eq!(p.mutex_available, avail_before);
    assert_eq!(p.mutex_allocation, alloc_before);
    assert_eq!(p.threads[t1], ThreadState::Ready);
}

#[test]
fn classic_deadlock_blocks_with_detection_disabled() {
    let mut p = ProcSync::new();
    let t1 = p.thread_create();
    let m0 = sys_mutex_create(&mut p, true) as usize;
    let m1 = sys_mutex_create(&mut p, true) as usize;
    assert_eq!(sys_mutex_lock(&mut p, 0, m0), 0);
    assert_eq!(sys_mutex_lock(&mut p, t1, m1), 0);
    assert_eq!(sys_mutex_lock(&mut p, 0, m1), 0);
    // with detection off the call blocks instead of being rejected
    assert_eq!(sys_mutex_lock(&mut p, t1, m0), 0);
    assert_eq!(p.threads[t1], ThreadState::WaitingMutex(m0));
}

#[test]
fn semaphore_handoff_wakes_blocked_taker() {
    let mut p = ProcSync::new();
    let t1 = p.thread_create();
    let s = sys_semaphore_create(&mut p, 0) as usize;
    assert_eq!(sys_semaphore_down(&mut p, 0, s), 0);
    assert_eq!(p.threads[0], ThreadState::WaitingSem(s));
    // up hands the unit straight to the waiter: available stays 0
    assert_eq!(sys_semaphore_up(&mut p, t1, s), 0);
    assert_eq!(p.threads[0], ThreadState::Ready);
    assert_eq!(p.sem_available[s], 0);
    assert_eq!(p.semaphores[s].as_ref().unwrap().count, 0);
    assert_eq!(p.sem_allocation[0][s], 1);
}

#[test]
fn semaphore_counts_down_and_up() {
    let mut p = ProcSync::new();
    let s = sys_semaphore_create(&mut p, 2) as usize;
    assert_eq!(p.sem_available[s], 2);
    assert_eq!(sys_semaphore_down(&mut p, 0, s), 0);
    assert_eq!(p.sem_available[s], 1);
    assert_eq!(sys_semaphore_up(&mut p, 0, s), 0);
    assert_eq!(p.sem_available[s], 2);
    assert_eq!(sys_semaphore_down(&mut p, 0, 9), -1);
    assert_eq!(sys_semaphore_up(&mut p, 0, 9), -1);
}

#[test]
fn condvar_wait_releases_mutex_and_signal_wakes_one() {
    let mut p = ProcSync::new();
    let t1 = p.thread_create();
    let m = sys_mutex_create(&mut p, true) as usize;
    let c = sys_condvar_create(&mut p) as usize;
    assert_eq!(sys_mutex_lock(&mut p, 0, m), 0);
    assert_eq!(sys_condvar_wait(&mut p, 0, c, m), 0);
    assert_eq!(p.threads[0], ThreadState::WaitingCondvar(c));
    // the mutex was released on the way into the wait
    assert!(!p.mutexes[m].as_ref().unwrap().locked);
    assert_eq!(sys_mutex_lock(&mut p, t1, m), 0);
    // signal wakes the waiter; it does not re-acquire the mutex by itself
    assert_eq!(sys_condvar_signal(&mut p, c), 0);
    assert_eq!(p.threads[0], ThreadState::Ready);
    assert!(p.mutexes[m].as_ref().unwrap().locked);
    assert_eq!(p.mutex_allocation[t1][m], 1);
    // a signal with no waiter is a no-op; an unknown id is not found
    assert_eq!(sys_condvar_signal(&mut p, c), 0);
    assert_eq!(sys_condvar_signal(&mut p, 7), -1);
    assert_eq!(sys_condvar_wait(&mut p, t1, 7, m), -1);
}

#[test]
fn sleep_blocks_until_expiry() {
    let mut p = ProcSync::new();
    assert_eq!(sys_sleep(&mut p, 0, 50), 0);
    assert_eq!(p.threads[0], ThreadState::Sleeping);
    timer_advance(&mut p, 49);
    assert_eq!(p.threads[0], ThreadState::Sleeping);
    timer_advance(&mut p, 50);
    assert_eq!(p.threads[0], ThreadState::Ready);
    assert_eq!(p.sleepers.len(), 0);
}

#[test]
fn mutex_create_reports_fresh_ids() {
    let mut p = ProcSync::new();
    assert_eq!(sys_mutex_create(&mut p, true), 0);
    assert_eq!(sys_mutex_create(&mut p, false), 1);
    assert_eq!(sys_semaphore_create(&mut p, 3), 0);
    assert_eq!(sys_condvar_create(&mut p), 0);
    assert_eq!(sys_condvar_create(&mut p), 1);
}
